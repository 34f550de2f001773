//! Blocks: proof-of-work containers of transactions.

use vstd::prelude::*;
use vstd::arithmetic::power::pow;
use vstd::arithmetic::power2::pow2;
use crate::transaction::{TX, TXV, view_txs};
use crate::constants::DIFFICULTY;
use crate::codec::{self, block_ok, txs_ok, str_ok};
use crate::hex::{bytes_val, hex_str_val, hex_of, lemma_hex_of_val, lemma_bytes_val_bound,
    lemma_bytes_val_concat, lemma_hex_of_ascii};
use crate::primitives::{sha256_of, sha256_digest, unix_time_seconds};

verus! {

/// A block of the chain. Its hash is the hex SHA-256 of its canonical
/// serialization; `prev_block_hash` is the hash of the predecessor block, or
/// the empty string for the genesis block.
#[derive(Debug, Clone, PartialEq)]
pub struct Block {
    pub timestamp: i64,
    pub transactions: Vec<TX>,
    pub prev_block_hash: String,
    pub nonce: i64,
}

/// Mathematical model of a `Block`.
pub struct BlockV {
    pub timestamp: i64,
    pub transactions: Seq<TXV>,
    pub prev_block_hash: Seq<char>,
    pub nonce: i64,
}

impl View for Block {
    type V = BlockV;

    open spec fn view(&self) -> BlockV {
        BlockV {
            timestamp: self.timestamp,
            transactions: view_txs(self.transactions@),
            prev_block_hash: self.prev_block_hash@,
            nonce: self.nonce,
        }
    }
}

/// The models of a list of blocks.
pub open spec fn view_blocks(s: Seq<Block>) -> Seq<BlockV> {
    s.map_values(|b: Block| b@)
}

/// The SHA-256 digest of a block's canonical serialization.
#[verifier::opaque]
pub open spec fn block_digest(b: BlockV) -> Seq<u8> {
    sha256_of(codec::canon_block(b))
}

/// The hex block hash: SHA-256 of the canonical serialization.
#[verifier::opaque]
pub open spec fn block_hash_str(b: BlockV) -> Seq<char> {
    hex_of(block_digest(b))
}

/// The block hash read as a big-endian 256-bit integer.
pub open spec fn hash_as_integer(b: BlockV) -> nat {
    hex_str_val(block_hash_str(b))
}

/// The difficulty target: a block hash must be strictly below it.
pub open spec fn target() -> nat {
    pow2((256 - DIFFICULTY) as nat)
}

/// Proof-of-work condition on a block.
pub open spec fn meets_target(b: BlockV) -> bool {
    hash_as_integer(b) < target()
}

/// The candidate block the miner hashes at search position `n`.
pub open spec fn nonce_candidate(ts: i64, txs: Seq<TXV>, prev: Seq<char>, n: u64) -> BlockV {
    BlockV { timestamp: ts, transactions: txs, prev_block_hash: prev, nonce: n as i64 }
}

/// No position of the nonce search space yields a block below the target.
pub open spec fn no_nonce_meets(ts: i64, txs: Seq<TXV>, prev: Seq<char>) -> bool {
    forall|n: u64|
        n < u64::MAX ==> !meets_target(#[trigger] nonce_candidate(ts, txs, prev, n))
}

/// pow(256, n) is 2^(8n).
proof fn lemma_pow256_is_pow2(n: nat)
    ensures
        pow(256, n) == pow2(8 * n),
    decreases n,
{
    vstd::arithmetic::power2::lemma_pow2(n);
    if n == 0 {
        reveal(vstd::arithmetic::power::pow);
        vstd::arithmetic::power2::lemma_pow2(0);
        assert(pow2(0) == pow(2, 0));
    } else {
        lemma_pow256_is_pow2((n - 1) as nat);
        reveal(vstd::arithmetic::power::pow);
        assert(pow(256, n) == 256 * pow(256, (n - 1) as nat));
        vstd::arithmetic::power2::lemma_pow2_adds(8, 8 * (n - 1) as nat);
        vstd::arithmetic::power2::lemma2_to64();
        assert(8 * n == 8 + 8 * (n - 1) as nat);
    }
}

/// The first 12 bits of a 32-byte digest are zero exactly when its value is
/// below 2^244.
proof fn lemma_digest_below_target(d: Seq<u8>)
    requires
        d.len() == 32,
    ensures
        (bytes_val(d) < pow2(244)) <==> (d[0] == 0 && d[1] < 16),
{
    let head = d.take(2);
    let tail = d.skip(2);
    assert(d =~= head + tail);
    lemma_bytes_val_concat(head, tail);
    lemma_bytes_val_bound(tail);
    assert(head.drop_last() =~= seq![d[0]]);
    assert(seq![d[0]].drop_last() =~= Seq::<u8>::empty());
    assert(bytes_val(Seq::<u8>::empty()) == 0);
    assert(bytes_val(seq![d[0]]) == d[0]);
    assert(head.last() == d[1]);
    assert(bytes_val(head) == bytes_val(seq![d[0]]) * 256 + d[1]);
    assert(bytes_val(head) == (d[0] * 256 + d[1]) as nat);
    lemma_pow256_is_pow2(30);
    vstd::arithmetic::power2::lemma_pow2_adds(4, 240);
    vstd::arithmetic::power2::lemma2_to64();
    let p = pow2(240) as int;
    let k = d[0] * 256 + d[1];
    assert(p > 0);
    assert(bytes_val(d) == k * p + bytes_val(tail));
    assert(pow2(244) == 16 * p);
    if d[0] == 0 && d[1] < 16 {
        assert(k < 16);
        assert(k * p <= 15 * p) by (nonlinear_arith)
            requires k <= 15, p > 0;
        assert(bytes_val(d) < 16 * p);
    }
    if bytes_val(d) < pow2(244) {
        if !(d[0] == 0 && d[1] < 16) {
            assert(k >= 16);
            assert(k * p >= 16 * p) by (nonlinear_arith)
                requires k >= 16, p > 0;
            assert(false);
        }
    }
}

/// Whether a 32-byte digest is below the difficulty target.
fn digest_below_target(d: &[u8]) -> (r: bool)
    requires
        d@.len() == 32,
    ensures
        r == (bytes_val(d@) < target()),
{
    proof {
        lemma_digest_below_target(d@);
    }
    d[0] == 0 && d[1] < 16
}

impl Block {
    /// The hex SHA-256 hash of this block's canonical serialization.
    pub fn hash(&self) -> (r: String)
        requires
            block_ok(self@),
        ensures
            r@ == block_hash_str(self@),
            str_ok(r@),
    {
        let d = self.digest();
        proof {
            reveal(block_hash_str);
            lemma_hex_of_ascii(d@);
        }
        crate::hex::bytes_to_hex(d.as_slice())
    }

    /// The raw SHA-256 digest of this block's canonical serialization.
    fn digest(&self) -> (r: Vec<u8>)
        requires
            block_ok(self@),
        ensures
            r@ == block_digest(self@),
            r@.len() == 32,
    {
        let mut buf: Vec<u8> = Vec::new();
        codec::encode_block(&mut buf, self);
        proof {
            reveal(block_digest);
            assert(buf@ =~= codec::canon_block(self@));
        }
        sha256_digest(buf.as_slice())
    }

    /// Whether this block's hash is strictly below the difficulty target.
    pub fn check_proof_of_work(&self) -> (r: bool)
        requires
            block_ok(self@),
        ensures
            r == meets_target(self@),
    {
        let d = self.digest();
        let r = digest_below_target(d.as_slice());
        proof {
            reveal(block_hash_str);
            lemma_hex_of_val(d@);
        }
        r
    }


    /// An equal copy.
    pub fn duplicate(&self) -> (r: Block)
        ensures
            r@ == self@,
    {
        Block {
            timestamp: self.timestamp,
            transactions: crate::transaction::duplicate_txs(&self.transactions),
            prev_block_hash: self.prev_block_hash.clone(),
            nonce: self.nonce,
        }
    }

    /// Search for a nonce whose block hash meets the difficulty target,
    /// scanning the nonce space from zero: the returned block carries the
    /// first position of the search that meets the target. The search fails
    /// only if no position at all meets the target for the captured
    /// timestamp, which for any real difficulty does not happen.
    #[verifier::loop_isolation(false)]
    pub fn mine(transactions: Vec<TX>, prev_block_hash: String) -> (r: Option<Block>)
        requires
            txs_ok(view_txs(transactions@)),
            str_ok(prev_block_hash@),
        ensures
            r matches Some(b) ==> {
                &&& b@ == nonce_candidate(
                    b@.timestamp,
                    view_txs(transactions@),
                    prev_block_hash@,
                    b@.nonce as u64,
                )
                &&& meets_target(b@)
                &&& forall|n: u64|
                    n < b@.nonce as u64 ==> !meets_target(
                        #[trigger] nonce_candidate(
                            b@.timestamp,
                            view_txs(transactions@),
                            prev_block_hash@,
                            n,
                        ),
                    )
                &&& block_ok(b@)
            },
            r is None ==> exists|ts: i64|
                #[trigger] no_nonce_meets(ts, view_txs(transactions@), prev_block_hash@),
    {
        let ghost txsv = view_txs(transactions@);
        let ghost prevv = prev_block_hash@;
        let timestamp = unix_time_seconds();
        let mut block = Block { timestamp, transactions, prev_block_hash, nonce: 0 };
        let mut tries: u64 = 0;
        while tries < u64::MAX
            invariant
                block_ok(block@),
                block@.timestamp == timestamp,
                block@.transactions == txsv,
                block@.prev_block_hash == prevv,
                forall|n: u64|
                    n < tries ==> !meets_target(
                        #[trigger] nonce_candidate(timestamp, txsv, prevv, n),
                    ),
            decreases u64::MAX - tries,
        {
            block.nonce = tries as i64;
            proof {
                assert(block@ == nonce_candidate(timestamp, txsv, prevv, tries));
            }
            if block.check_proof_of_work() {
                proof {
                    assert((tries as i64) as u64 == tries) by (bit_vector);
                }
                return Some(block);
            }
            tries = tries + 1;
        }
        proof {
            assert(no_nonce_meets(timestamp, txsv, prevv));
        }
        None
    }
}

} // verus!
