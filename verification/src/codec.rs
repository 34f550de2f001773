//! The canonical serialization: a deterministic byte encoding of every record
//! that is hashed, signed, or persisted.
//!
//! Integers are 8 big-endian bytes; byte strings and (ASCII) character
//! strings are length-prefixed; lists are count-prefixed; records are the
//! concatenation of their fields in declaration order; a transaction carries a
//! one-byte variant tag (the tag is not part of the hashed payload).
//!
//! For every record there is a spec serializer (`canon_*`), a spec parser
//! (`dec_*`), an inversion lemma (parsing what was serialized yields the
//! original record), and executable encode/decode functions proved against
//! the spec pair.

use vstd::prelude::*;
use vstd::arithmetic::power::pow;
use vstd::utf8::{valid_utf8, decode_utf8, encode_utf8, is_ascii_chars};
use crate::hex::{bytes_val, lemma_bytes_val_bound};
use crate::transaction::{TXOutputV, TXInputV, CoinbaseTXV, StandardTXV, TXV};
use crate::transaction::{TXOutput, TXInput, CoinbaseTX, StandardTX, TX, view_outputs, view_inputs,
    view_txs};
use crate::block::{Block, BlockV, view_blocks};

verus! {

/// Variant tag of a coinbase transaction ('C').
pub const TAG_COINBASE: u8 = 67;

/// Variant tag of a standard transaction ('S').
pub const TAG_STANDARD: u8 = 83;

// ===================== encodability =====================

/// Lengths must fit the 8-byte prefix.
pub open spec fn fits_u64(n: nat) -> bool {
    n < 0x10000000000000000
}

/// A string is encodable when it is ASCII (and its length fits the prefix).
pub open spec fn str_ok(s: Seq<char>) -> bool {
    is_ascii_chars(s) && fits_u64(s.len())
}

pub open spec fn bytes_ok(b: Seq<u8>) -> bool {
    fits_u64(b.len())
}

pub open spec fn output_ok(o: TXOutputV) -> bool {
    str_ok(o.pubkey_hash)
}

pub open spec fn outputs_ok(s: Seq<TXOutputV>) -> bool {
    fits_u64(s.len()) && forall|i: int| 0 <= i < s.len() ==> output_ok(#[trigger] s[i])
}

pub open spec fn input_ok(x: TXInputV) -> bool {
    str_ok(x.txid) && bytes_ok(x.signature) && bytes_ok(x.pubkey)
}

pub open spec fn inputs_ok(s: Seq<TXInputV>) -> bool {
    fits_u64(s.len()) && forall|i: int| 0 <= i < s.len() ==> input_ok(#[trigger] s[i])
}

pub open spec fn coinbase_ok(c: CoinbaseTXV) -> bool {
    outputs_ok(c.outputs)
}

pub open spec fn standard_ok(t: StandardTXV) -> bool {
    outputs_ok(t.outputs) && inputs_ok(t.inputs)
}

pub open spec fn tx_ok(t: TXV) -> bool {
    match t {
        TXV::Coinbase(c) => coinbase_ok(c),
        TXV::Standard(s) => standard_ok(s),
    }
}

pub open spec fn txs_ok(s: Seq<TXV>) -> bool {
    fits_u64(s.len()) && forall|i: int| 0 <= i < s.len() ==> tx_ok(#[trigger] s[i])
}

pub open spec fn block_ok(b: BlockV) -> bool {
    txs_ok(b.transactions) && str_ok(b.prev_block_hash)
}

pub open spec fn blocks_ok(s: Seq<BlockV>) -> bool {
    fits_u64(s.len()) && forall|i: int| 0 <= i < s.len() ==> block_ok(#[trigger] s[i])
}

// ===================== spec serializers =====================

/// The `k` low-order base-256 digits of `m`, most significant first.
pub open spec fn canon_u64_rec(m: nat, k: nat) -> Seq<u8>
    decreases k,
{
    if k == 0 {
        Seq::empty()
    } else {
        canon_u64_rec(m / 256, (k - 1) as nat) + seq![(m % 256) as u8]
    }
}

/// 8 big-endian bytes.
pub open spec fn canon_u64(n: u64) -> Seq<u8> {
    canon_u64_rec(n as nat, 8)
}

/// An i64 is encoded as its two's-complement u64.
pub open spec fn canon_i64(n: i64) -> Seq<u8> {
    canon_u64(n as u64)
}

/// Length prefix, then the raw bytes.
pub open spec fn canon_bytes(b: Seq<u8>) -> Seq<u8> {
    canon_u64(b.len() as u64) + b
}

/// Character-count prefix, then the UTF-8 bytes (one byte per ASCII char).
pub open spec fn canon_str(s: Seq<char>) -> Seq<u8> {
    canon_u64(s.len() as u64) + encode_utf8(s)
}

/// Concatenation of the items' encodings.
pub open spec fn canon_items<T>(s: Seq<T>, fc: spec_fn(T) -> Seq<u8>) -> Seq<u8>
    decreases s.len(),
{
    if s.len() == 0 {
        Seq::empty()
    } else {
        fc(s.first()) + canon_items(s.drop_first(), fc)
    }
}

/// Count prefix, then the items.
pub open spec fn canon_list<T>(s: Seq<T>, fc: spec_fn(T) -> Seq<u8>) -> Seq<u8> {
    canon_u64(s.len() as u64) + canon_items(s, fc)
}

pub open spec fn canon_output(o: TXOutputV) -> Seq<u8> {
    canon_u64(o.value) + canon_str(o.pubkey_hash)
}

pub open spec fn canon_input(x: TXInputV) -> Seq<u8> {
    canon_str(x.txid) + canon_u64(x.vout as u64) + canon_bytes(x.signature) + canon_bytes(x.pubkey)
}

/// The output serializer as a function value, shared by every list form.
pub open spec fn canon_output_fn() -> spec_fn(TXOutputV) -> Seq<u8> {
    |o: TXOutputV| canon_output(o)
}

/// The input serializer as a function value.
pub open spec fn canon_input_fn() -> spec_fn(TXInputV) -> Seq<u8> {
    |x: TXInputV| canon_input(x)
}

pub open spec fn canon_outputs(s: Seq<TXOutputV>) -> Seq<u8> {
    canon_list(s, canon_output_fn())
}

pub open spec fn canon_inputs(s: Seq<TXInputV>) -> Seq<u8> {
    canon_list(s, canon_input_fn())
}

/// The hashed payload of a coinbase transaction.
pub open spec fn canon_coinbase(c: CoinbaseTXV) -> Seq<u8> {
    canon_outputs(c.outputs) + canon_u64(c.rand)
}

/// The hashed payload of a standard transaction.
pub open spec fn canon_standard(t: StandardTXV) -> Seq<u8> {
    canon_outputs(t.outputs) + canon_inputs(t.inputs)
}

/// A tagged transaction; the tag stands before the hashed payload.
pub open spec fn canon_tx(t: TXV) -> Seq<u8> {
    match t {
        TXV::Coinbase(c) => seq![TAG_COINBASE] + canon_coinbase(c),
        TXV::Standard(s) => seq![TAG_STANDARD] + canon_standard(s),
    }
}

/// The transaction serializer as a function value.
pub open spec fn canon_tx_fn() -> spec_fn(TXV) -> Seq<u8> {
    |t: TXV| canon_tx(t)
}

pub open spec fn canon_txs(s: Seq<TXV>) -> Seq<u8> {
    canon_list(s, canon_tx_fn())
}

/// The signing pre-image: the spent output's address and the spending
/// transaction's full output list.
pub open spec fn canon_txdata(pubkey_hash: Seq<char>, outputs: Seq<TXOutputV>) -> Seq<u8> {
    canon_str(pubkey_hash) + canon_outputs(outputs)
}

pub open spec fn canon_block(b: BlockV) -> Seq<u8> {
    canon_i64(b.timestamp) + canon_txs(b.transactions) + canon_str(b.prev_block_hash)
        + canon_i64(b.nonce)
}

/// The block serializer as a function value.
pub open spec fn canon_block_fn() -> spec_fn(BlockV) -> Seq<u8> {
    |b: BlockV| canon_block(b)
}

pub open spec fn canon_blocks(s: Seq<BlockV>) -> Seq<u8> {
    canon_list(s, canon_block_fn())
}

// ===================== spec parsers =====================
// Each parser takes the remaining bytes and yields the parsed value and the
// number of bytes consumed.

pub open spec fn dec_u64(s: Seq<u8>) -> Option<(u64, int)> {
    if s.len() >= 8 {
        Some((bytes_val(s.take(8)) as u64, 8int))
    } else {
        None
    }
}

pub open spec fn dec_i64(s: Seq<u8>) -> Option<(i64, int)> {
    match dec_u64(s) {
        Some((n, p)) => Some((n as i64, p)),
        None => None,
    }
}

pub open spec fn dec_bytes(s: Seq<u8>) -> Option<(Seq<u8>, int)> {
    match dec_u64(s) {
        Some((n, p)) => if p + n <= s.len() {
            Some((s.subrange(p, p + n), p + n))
        } else {
            None
        },
        None => None,
    }
}

pub open spec fn dec_str(s: Seq<u8>) -> Option<(Seq<char>, int)> {
    match dec_u64(s) {
        Some((n, p)) => if p + n <= s.len() {
            let b = s.subrange(p, p + n);
            if valid_utf8(b) && is_ascii_chars(decode_utf8(b)) && decode_utf8(b).len() == n {
                Some((decode_utf8(b), p + n))
            } else {
                None
            }
        } else {
            None
        },
        None => None,
    }
}

pub open spec fn dec_items<T>(s: Seq<u8>, n: nat, fd: spec_fn(Seq<u8>) -> Option<(T, int)>) -> Option<
    (Seq<T>, int),
>
    decreases n,
{
    if n == 0 {
        Some((Seq::empty(), 0int))
    } else {
        match fd(s) {
            Some((v, p)) => if 0 <= p <= s.len() {
                match dec_items(s.subrange(p, s.len() as int), (n - 1) as nat, fd) {
                    Some((vs, q)) => Some((seq![v] + vs, p + q)),
                    None => None,
                }
            } else {
                None
            },
            None => None,
        }
    }
}

pub open spec fn dec_list<T>(s: Seq<u8>, fd: spec_fn(Seq<u8>) -> Option<(T, int)>) -> Option<
    (Seq<T>, int),
> {
    match dec_u64(s) {
        Some((n, p)) => match dec_items(s.subrange(p, s.len() as int), n as nat, fd) {
            Some((vs, q)) => Some((vs, p + q)),
            None => None,
        },
        None => None,
    }
}

// ===================== inversion lemmas =====================

pub proof fn lemma_canon_u64_rec_len(m: nat, k: nat)
    ensures
        canon_u64_rec(m, k).len() == k,
    decreases k,
{
    if k > 0 {
        lemma_canon_u64_rec_len(m / 256, (k - 1) as nat);
    }
}

pub proof fn lemma_canon_u64_rec_val(m: nat, k: nat)
    requires
        m < pow(256, k),
    ensures
        bytes_val(canon_u64_rec(m, k)) == m,
    decreases k,
{
    reveal(vstd::arithmetic::power::pow);
    if k == 0 {
    } else {
        let front = canon_u64_rec(m / 256, (k - 1) as nat);
        let c = canon_u64_rec(m, k);
        assert(m < 256 * pow(256, (k - 1) as nat));
        vstd::arithmetic::div_mod::lemma_multiply_divide_lt(m as int, 256, pow(256, (k - 1) as nat));
        lemma_canon_u64_rec_val(m / 256, (k - 1) as nat);
        assert(c.drop_last() =~= front);
        assert(c.last() == (m % 256) as u8);
        vstd::arithmetic::div_mod::lemma_fundamental_div_mod(m as int, 256);
    }
}

/// pow(256, 8) is 2^64.
pub proof fn lemma_pow256_8()
    ensures
        pow(256, 8) == 0x10000000000000000,
{
    reveal_with_fuel(vstd::arithmetic::power::pow, 9);
}

pub proof fn lemma_canon_u64_len(n: u64)
    ensures
        canon_u64(n).len() == 8,
{
    lemma_canon_u64_rec_len(n as nat, 8);
}

pub proof fn lemma_dec_u64(n: u64, rest: Seq<u8>)
    ensures
        dec_u64(canon_u64(n) + rest) == Some((n, 8int)),
{
    lemma_canon_u64_len(n);
    lemma_pow256_8();
    lemma_canon_u64_rec_val(n as nat, 8);
    assert((canon_u64(n) + rest).take(8) =~= canon_u64(n));
}

pub proof fn lemma_dec_i64(n: i64, rest: Seq<u8>)
    ensures
        dec_i64(canon_i64(n) + rest) == Some((n, 8int)),
{
    lemma_dec_u64(n as u64, rest);
    assert((n as u64) as i64 == n) by (bit_vector);
}

pub proof fn lemma_dec_bytes(b: Seq<u8>, rest: Seq<u8>)
    requires
        bytes_ok(b),
    ensures
        dec_bytes(canon_bytes(b) + rest) == Some((b, 8 + b.len() as int)),
{
    let s = canon_bytes(b) + rest;
    assert(s =~= canon_u64(b.len() as u64) + (b + rest));
    lemma_dec_u64(b.len() as u64, b + rest);
    lemma_canon_u64_len(b.len() as u64);
    assert(s.subrange(8, 8 + b.len() as int) =~= b);
}

pub proof fn lemma_dec_str(t: Seq<char>, rest: Seq<u8>)
    requires
        str_ok(t),
    ensures
        dec_str(canon_str(t) + rest) == Some((t, 8 + t.len() as int)),
{
    vstd::utf8::is_ascii_chars_encode_utf8(t);
    vstd::utf8::encode_utf8_valid_utf8(t);
    vstd::utf8::encode_utf8_decode_utf8(t);
    let b = encode_utf8(t);
    assert(b.len() == t.len());
    let s = canon_str(t) + rest;
    assert(s =~= canon_u64(t.len() as u64) + (b + rest));
    lemma_dec_u64(t.len() as u64, b + rest);
    lemma_canon_u64_len(t.len() as u64);
    assert(s.subrange(8, 8 + t.len() as int) =~= b);
}

pub proof fn lemma_canon_items_push<T>(s: Seq<T>, v: T, fc: spec_fn(T) -> Seq<u8>)
    ensures
        canon_items(s.push(v), fc) == canon_items(s, fc) + fc(v),
    decreases s.len(),
{
    if s.len() == 0 {
        let e = Seq::<T>::empty();
        assert(s =~= e);
        assert(s.push(v).drop_first() =~= e);
        assert(s.push(v).first() == v);
        assert(canon_items(e, fc) == Seq::<u8>::empty());
        assert(canon_items(s.push(v), fc) == fc(v) + canon_items(e, fc));
        assert(fc(v) + Seq::<u8>::empty() =~= fc(v));
        assert(canon_items(s, fc) + fc(v) =~= fc(v));
    } else {
        assert(s.push(v).first() == s.first());
        assert(s.push(v).drop_first() =~= s.drop_first().push(v));
        lemma_canon_items_push(s.drop_first(), v, fc);
        assert(canon_items(s.push(v), fc) =~= canon_items(s, fc) + fc(v));
    }
}

pub proof fn lemma_dec_items<T>(
    items: Seq<T>,
    rest: Seq<u8>,
    fc: spec_fn(T) -> Seq<u8>,
    fd: spec_fn(Seq<u8>) -> Option<(T, int)>,
)
    requires
        forall|v: T, r: Seq<u8>|
            items.contains(v) ==> #[trigger] fd(fc(v) + r) == Some((v, fc(v).len() as int)),
    ensures
        dec_items(canon_items(items, fc) + rest, items.len(), fd) == Some(
            (items, canon_items(items, fc).len() as int),
        ),
    decreases items.len(),
{
    let s = canon_items(items, fc) + rest;
    if items.len() == 0 {
        assert(dec_items(s, 0, fd) == Some((Seq::<T>::empty(), 0int)));
        assert(items =~= Seq::<T>::empty());
    } else {
        let v = items.first();
        let tail = items.drop_first();
        assert(items.contains(v)) by {
            assert(items[0] == v);
        }
        assert(s =~= fc(v) + (canon_items(tail, fc) + rest));
        assert(fd(s) == Some((v, fc(v).len() as int)));
        let p = fc(v).len() as int;
        assert(s.subrange(p, s.len() as int) =~= canon_items(tail, fc) + rest);
        assert forall|w: T, r: Seq<u8>| tail.contains(w) implies #[trigger] fd(fc(w) + r) == Some(
            (w, fc(w).len() as int),
        ) by {
            let j = choose|j: int| 0 <= j < tail.len() && tail[j] == w;
            assert(items[j + 1] == w);
            assert(items.contains(w));
        }
        lemma_dec_items(tail, rest, fc, fd);
        assert(seq![v] + tail =~= items);
    }
}

pub proof fn lemma_dec_list<T>(
    items: Seq<T>,
    rest: Seq<u8>,
    fc: spec_fn(T) -> Seq<u8>,
    fd: spec_fn(Seq<u8>) -> Option<(T, int)>,
)
    requires
        fits_u64(items.len()),
        forall|v: T, r: Seq<u8>|
            items.contains(v) ==> #[trigger] fd(fc(v) + r) == Some((v, fc(v).len() as int)),
    ensures
        dec_list(canon_list(items, fc) + rest, fd) == Some(
            (items, canon_list(items, fc).len() as int),
        ),
{
    let n = items.len() as u64;
    let s = canon_list(items, fc) + rest;
    assert(s =~= canon_u64(n) + (canon_items(items, fc) + rest));
    lemma_dec_u64(n, canon_items(items, fc) + rest);
    lemma_canon_u64_len(n);
    assert(s.subrange(8, s.len() as int) =~= canon_items(items, fc) + rest);
    lemma_dec_items(items, rest, fc, fd);
}

// ===================== executable encoders =====================

/// Append the canonical bytes of `n`.
pub fn encode_u64(buf: &mut Vec<u8>, n: u64)
    ensures
        final(buf)@ == old(buf)@ + canon_u64(n),
{
    let b7 = (n % 256) as u8;
    let m1 = n / 256;
    let b6 = (m1 % 256) as u8;
    let m2 = m1 / 256;
    let b5 = (m2 % 256) as u8;
    let m3 = m2 / 256;
    let b4 = (m3 % 256) as u8;
    let m4 = m3 / 256;
    let b3 = (m4 % 256) as u8;
    let m5 = m4 / 256;
    let b2 = (m5 % 256) as u8;
    let m6 = m5 / 256;
    let b1 = (m6 % 256) as u8;
    let m7 = m6 / 256;
    let b0 = (m7 % 256) as u8;
    buf.push(b0);
    buf.push(b1);
    buf.push(b2);
    buf.push(b3);
    buf.push(b4);
    buf.push(b5);
    buf.push(b6);
    buf.push(b7);
    proof {
        reveal_with_fuel(canon_u64_rec, 9);
        assert(buf@ =~= old(buf)@ + canon_u64(n));
    }
}

pub fn encode_i64(buf: &mut Vec<u8>, n: i64)
    ensures
        final(buf)@ == old(buf)@ + canon_i64(n),
{
    encode_u64(buf, n as u64);
}

/// Append a length-prefixed byte string.
pub fn encode_bytes(buf: &mut Vec<u8>, b: &[u8])
    ensures
        final(buf)@ == old(buf)@ + canon_bytes(b@),
{
    encode_u64(buf, b.len() as u64);
    buf.extend_from_slice(b);
    proof {
        assert(buf@ =~= old(buf)@ + canon_bytes(b@));
    }
}

/// Append a length-prefixed ASCII string.
pub fn encode_str(buf: &mut Vec<u8>, s: &str)
    requires
        str_ok(s@),
    ensures
        final(buf)@ == old(buf)@ + canon_str(s@),
{
    proof {
        vstd::utf8::is_ascii_chars_encode_utf8(s@);
    }
    encode_u64(buf, s.unicode_len() as u64);
    let bytes = s.as_bytes();
    buf.extend_from_slice(bytes);
    proof {
        assert(buf@ =~= old(buf)@ + canon_str(s@));
    }
}

// ===================== executable decoders =====================

/// Read 8 big-endian bytes at `pos`.
#[verifier::loop_isolation(false)]
pub fn decode_u64(buf: &[u8], pos: usize) -> (r: Option<(u64, usize)>)
    requires
        pos <= buf@.len(),
    ensures
        match r {
            None => dec_u64(buf@.skip(pos as int)) is None,
            Some((x, q)) => pos <= q <= buf@.len() && dec_u64(buf@.skip(pos as int)) == Some(
                (x, q - pos),
            ),
        },
{
    if buf.len() - pos < 8 {
        return None;
    }
    proof {
        reveal(vstd::arithmetic::power::pow);
        lemma_pow256_8();
        assert(buf@.subrange(pos as int, pos as int) =~= Seq::<u8>::empty());
    }
    let mut x: u64 = 0;
    let mut j: usize = 0;
    while j < 8
        invariant
            buf@.len() <= usize::MAX,
            pos + 8 <= buf@.len(),
            j <= 8,
            x as nat == bytes_val(buf@.subrange(pos as int, pos + j)),
            (x as nat) < pow(256, j as nat),
        decreases 8 - j,
    {
        proof {
            reveal(vstd::arithmetic::power::pow);
            assert(buf@.subrange(pos as int, pos + j + 1).drop_last() =~= buf@.subrange(
                pos as int,
                pos + j,
            ));
            let p = pow(256, j as nat);
            assert(x as int * 256 <= (p - 1) * 256) by (nonlinear_arith)
                requires x as int <= p - 1;
            assert(pow(256, (j + 1) as nat) == 256 * p);
            vstd::arithmetic::power::lemma_pow_increases(256, (j + 1) as nat, 8);
            assert((p - 1) * 256 + 255 < pow(256, (j + 1) as nat));
        }
        x = x * 256 + (buf[pos + j] as u64);
        j = j + 1;
    }
    proof {
        assert(buf@.skip(pos as int).take(8) =~= buf@.subrange(pos as int, pos + 8));
        lemma_bytes_val_bound(buf@.subrange(pos as int, pos + 8));
    }
    Some((x, pos + 8))
}

pub fn decode_i64(buf: &[u8], pos: usize) -> (r: Option<(i64, usize)>)
    requires
        pos <= buf@.len(),
    ensures
        match r {
            None => dec_i64(buf@.skip(pos as int)) is None,
            Some((x, q)) => pos <= q <= buf@.len() && dec_i64(buf@.skip(pos as int)) == Some(
                (x, q - pos),
            ),
        },
{
    match decode_u64(buf, pos) {
        None => None,
        Some((x, q)) => Some((x as i64, q)),
    }
}

/// Read a length-prefixed byte string at `pos`.
pub fn decode_bytes(buf: &[u8], pos: usize) -> (r: Option<(Vec<u8>, usize)>)
    requires
        pos <= buf@.len(),
    ensures
        match r {
            None => dec_bytes(buf@.skip(pos as int)) is None,
            Some((x, q)) => pos <= q <= buf@.len() && dec_bytes(buf@.skip(pos as int)) == Some(
                (x@, q - pos),
            ),
        },
{
    let ghost s = buf@.skip(pos as int);
    match decode_u64(buf, pos) {
        None => None,
        Some((n, p)) => {
            if n > (buf.len() - p) as u64 {
                proof {
                    assert(dec_bytes(s) is None);
                }
                None
            } else {
                let end = p + n as usize;
                let v = vstd::slice::slice_to_vec(vstd::slice::slice_subrange(buf, p, end));
                proof {
                    assert(v@ =~= s.subrange((p - pos) as int, (p - pos) + n));
                }
                Some((v, end))
            }
        },
    }
}

/// Read a length-prefixed ASCII string at `pos`.
#[verifier::loop_isolation(false)]
pub fn decode_string(buf: &[u8], pos: usize) -> (r: Option<(String, usize)>)
    requires
        pos <= buf@.len(),
    ensures
        match r {
            None => dec_str(buf@.skip(pos as int)) is None,
            Some((x, q)) => pos <= q <= buf@.len() && dec_str(buf@.skip(pos as int)) == Some(
                (x@, q - pos),
            ) && str_ok(x@),
        },
{
    let ghost s = buf@.skip(pos as int);
    match decode_u64(buf, pos) {
        None => None,
        Some((n, p)) => {
            if n > (buf.len() - p) as u64 {
                proof {
                    assert(dec_str(s) is None);
                }
                None
            } else {
                let end = p + n as usize;
                let ghost region = s.subrange((p - pos) as int, (p - pos) + n);
                let mut j: usize = p;
                while j < end
                    invariant
                        buf@.len() <= usize::MAX,
                        pos <= p <= j <= end <= buf@.len(),
                        region == buf@.skip(pos as int).subrange(
                            (p - pos) as int,
                            (p - pos) + (end - p),
                        ),
                        forall|k: int| p <= k < j ==> #[trigger] buf@[k] < 128,
                    decreases end - j,
                {
                    if buf[j] >= 128 {
                        proof {
                            assert(region[j - p] == s[(p - pos) + (j - p)]);
                            assert((p - pos) + (j - p) == j - pos);
                            assert(s[j - pos] == buf@[j as int]);
                            lemma_ascii_region(region, j - p);
                            assert(region =~= s.subrange(8, 8 + n as int));
                            assert(dec_str(s) is None);
                        }
                        return None;
                    }
                    j = j + 1;
                }
                let v = vstd::slice::slice_to_vec(vstd::slice::slice_subrange(buf, p, end));
                proof {
                    assert(v@ =~= region);
                    lemma_all_ascii_bytes(region);
                }
                match crate::primitives::bytes_to_string(v) {
                    None => {
                        proof {
                            assert(false);
                        }
                        None
                    },
                    Some(st) => Some((st, end)),
                }
            }
        },
    }
}

/// A byte at or above 128 in the region means the region is not an ASCII
/// decoding.
proof fn lemma_ascii_region(b: Seq<u8>, i: int)
    requires
        0 <= i < b.len(),
        b[i] >= 128,
    ensures
        !(valid_utf8(b) && is_ascii_chars(decode_utf8(b)) && decode_utf8(b).len() == b.len()),
{
    if valid_utf8(b) && is_ascii_chars(decode_utf8(b)) && decode_utf8(b).len() == b.len() {
        let chars = decode_utf8(b);
        vstd::utf8::is_ascii_chars_encode_utf8(chars);
        vstd::utf8::decode_utf8_encode_utf8(b);
        assert(encode_utf8(chars)[i] == chars[i] as u8);
        let u = chars[i] as u32;
        assert(u <= 127);
        assert(u <= 127 ==> u as u8 <= 127) by (bit_vector);
        assert(chars[i] as u8 == u as u8);
    }
}

/// A region of bytes all below 128 is the valid ASCII encoding of its chars.
proof fn lemma_all_ascii_bytes(b: Seq<u8>)
    requires
        forall|k: int| 0 <= k < b.len() ==> #[trigger] b[k] < 128,
    ensures
        valid_utf8(b),
        is_ascii_chars(decode_utf8(b)),
        decode_utf8(b).len() == b.len(),
    decreases b.len(),
{
    if b.len() == 0 {
    } else {
        let b0 = b[0];
        assert(b0 < 128);
        assert(vstd::utf8::is_leading_byte_width_1(b0));
        assert(b0 & 0x7f == b0) by (bit_vector)
            requires b0 < 128;
        assert(vstd::utf8::codepoint_width_1(b0) == b0 as u32);
        assert(vstd::utf8::valid_first_scalar(b));
        assert(vstd::utf8::length_of_first_scalar(b) == 1);
        let rest = vstd::utf8::pop_first_scalar(b);
        assert(rest =~= b.subrange(1, b.len() as int));
        lemma_all_ascii_bytes(rest);
        assert(valid_utf8(b));
        let c = vstd::utf8::decode_first_scalar(b) as char;
        assert(c as u32 == b0 as u32);
        let chars = decode_utf8(b);
        assert(chars == seq![c] + decode_utf8(rest));
        assert forall|i: int| 0 <= i < chars.len() implies
            '\0' <= #[trigger] chars[i] <= '\u{7f}' by {
            if i == 0 {
                assert(chars[i] == c);
            } else {
                assert(chars[i] == decode_utf8(rest)[i - 1]);
            }
        }
    }
}

// ===================== record parsers =====================

pub open spec fn dec_output(s: Seq<u8>) -> Option<(TXOutputV, int)> {
    match dec_u64(s) {
        Some((v, p)) => match dec_str(s.subrange(p, s.len() as int)) {
            Some((h, q)) => Some((TXOutputV { value: v, pubkey_hash: h }, p + q)),
            None => None,
        },
        None => None,
    }
}

pub open spec fn dec_input(s: Seq<u8>) -> Option<(TXInputV, int)> {
    match dec_str(s) {
        Some((txid, p1)) => match dec_u64(s.subrange(p1, s.len() as int)) {
            Some((vu, p2)) => if vu <= usize::MAX as u64 {
                match dec_bytes(s.subrange(p1 + p2, s.len() as int)) {
                    Some((sig, p3)) => match dec_bytes(
                        s.subrange(p1 + p2 + p3, s.len() as int),
                    ) {
                        Some((pk, p4)) => Some(
                            (
                                TXInputV {
                                    txid: txid,
                                    vout: vu as usize,
                                    signature: sig,
                                    pubkey: pk,
                                },
                                p1 + p2 + p3 + p4,
                            ),
                        ),
                        None => None,
                    },
                    None => None,
                }
            } else {
                None
            },
            None => None,
        },
        None => None,
    }
}

/// The output parser as a function value.
pub open spec fn dec_output_fn() -> spec_fn(Seq<u8>) -> Option<(TXOutputV, int)> {
    |s: Seq<u8>| dec_output(s)
}

/// The input parser as a function value.
pub open spec fn dec_input_fn() -> spec_fn(Seq<u8>) -> Option<(TXInputV, int)> {
    |s: Seq<u8>| dec_input(s)
}

pub open spec fn dec_outputs(s: Seq<u8>) -> Option<(Seq<TXOutputV>, int)> {
    dec_list(s, dec_output_fn())
}

pub open spec fn dec_inputs(s: Seq<u8>) -> Option<(Seq<TXInputV>, int)> {
    dec_list(s, dec_input_fn())
}

pub open spec fn dec_coinbase(s: Seq<u8>) -> Option<(CoinbaseTXV, int)> {
    match dec_outputs(s) {
        Some((outs, p1)) => match dec_u64(s.subrange(p1, s.len() as int)) {
            Some((rand, p2)) => Some((CoinbaseTXV { outputs: outs, rand: rand }, p1 + p2)),
            None => None,
        },
        None => None,
    }
}

pub open spec fn dec_standard(s: Seq<u8>) -> Option<(StandardTXV, int)> {
    match dec_outputs(s) {
        Some((outs, p1)) => match dec_inputs(s.subrange(p1, s.len() as int)) {
            Some((ins, p2)) => Some((StandardTXV { outputs: outs, inputs: ins }, p1 + p2)),
            None => None,
        },
        None => None,
    }
}

pub open spec fn dec_tx(s: Seq<u8>) -> Option<(TXV, int)> {
    if s.len() == 0 {
        None
    } else if s[0] == TAG_COINBASE {
        match dec_coinbase(s.subrange(1, s.len() as int)) {
            Some((c, p)) => Some((TXV::Coinbase(c), 1 + p)),
            None => None,
        }
    } else if s[0] == TAG_STANDARD {
        match dec_standard(s.subrange(1, s.len() as int)) {
            Some((t, p)) => Some((TXV::Standard(t), 1 + p)),
            None => None,
        }
    } else {
        None
    }
}

/// The transaction parser as a function value.
pub open spec fn dec_tx_fn() -> spec_fn(Seq<u8>) -> Option<(TXV, int)> {
    |s: Seq<u8>| dec_tx(s)
}

pub open spec fn dec_txs(s: Seq<u8>) -> Option<(Seq<TXV>, int)> {
    dec_list(s, dec_tx_fn())
}

pub open spec fn dec_block(s: Seq<u8>) -> Option<(BlockV, int)> {
    match dec_i64(s) {
        Some((ts, p1)) => match dec_txs(s.subrange(p1, s.len() as int)) {
            Some((txs, p2)) => match dec_str(s.subrange(p1 + p2, s.len() as int)) {
                Some((prev, p3)) => match dec_i64(s.subrange(p1 + p2 + p3, s.len() as int)) {
                    Some((nonce, p4)) => Some(
                        (
                            BlockV {
                                timestamp: ts,
                                transactions: txs,
                                prev_block_hash: prev,
                                nonce: nonce,
                            },
                            p1 + p2 + p3 + p4,
                        ),
                    ),
                    None => None,
                },
                None => None,
            },
            None => None,
        },
        None => None,
    }
}

/// The block parser as a function value.
pub open spec fn dec_block_fn() -> spec_fn(Seq<u8>) -> Option<(BlockV, int)> {
    |s: Seq<u8>| dec_block(s)
}

pub open spec fn dec_blocks(s: Seq<u8>) -> Option<(Seq<BlockV>, int)> {
    dec_list(s, dec_block_fn())
}

// ===================== record inversion lemmas =====================

pub proof fn lemma_dec_output(o: TXOutputV, rest: Seq<u8>)
    requires
        output_ok(o),
    ensures
        dec_output(canon_output(o) + rest) == Some((o, canon_output(o).len() as int)),
{
    let s = canon_output(o) + rest;
    assert(s =~= canon_u64(o.value) + (canon_str(o.pubkey_hash) + rest));
    lemma_dec_u64(o.value, canon_str(o.pubkey_hash) + rest);
    lemma_canon_u64_len(o.value);
    assert(s.subrange(8, s.len() as int) =~= canon_str(o.pubkey_hash) + rest);
    lemma_dec_str(o.pubkey_hash, rest);
    vstd::utf8::is_ascii_chars_encode_utf8(o.pubkey_hash);
    lemma_canon_u64_len(o.pubkey_hash.len() as u64);
}

pub proof fn lemma_dec_input(x: TXInputV, rest: Seq<u8>)
    requires
        input_ok(x),
    ensures
        dec_input(canon_input(x) + rest) == Some((x, canon_input(x).len() as int)),
{
    let s = canon_input(x) + rest;
    let c2 = canon_u64(x.vout as u64);
    let c3 = canon_bytes(x.signature);
    let c4 = canon_bytes(x.pubkey);
    assert(s =~= canon_str(x.txid) + (c2 + (c3 + (c4 + rest))));
    lemma_dec_str(x.txid, c2 + (c3 + (c4 + rest)));
    vstd::utf8::is_ascii_chars_encode_utf8(x.txid);
    lemma_canon_u64_len(x.txid.len() as u64);
    lemma_canon_u64_len(x.signature.len() as u64);
    lemma_canon_u64_len(x.pubkey.len() as u64);
    let p1 = 8 + x.txid.len() as int;
    assert(s.subrange(p1, s.len() as int) =~= c2 + (c3 + (c4 + rest)));
    lemma_dec_u64(x.vout as u64, c3 + (c4 + rest));
    lemma_canon_u64_len(x.vout as u64);
    let p2 = 8int;
    assert(s.subrange(p1, s.len() as int).subrange(p2, s.subrange(p1, s.len() as int).len() as int)
        =~= c3 + (c4 + rest));
    assert(s.subrange(p1 + p2, s.len() as int) =~= c3 + (c4 + rest));
    lemma_dec_bytes(x.signature, c4 + rest);
    let p3 = 8 + x.signature.len() as int;
    assert(s.subrange(p1 + p2 + p3, s.len() as int) =~= c4 + rest);
    lemma_dec_bytes(x.pubkey, rest);
    assert((x.vout as u64) as usize == x.vout);
}

pub proof fn lemma_dec_outputs(s: Seq<TXOutputV>, rest: Seq<u8>)
    requires
        outputs_ok(s),
    ensures
        dec_outputs(canon_outputs(s) + rest) == Some((s, canon_outputs(s).len() as int)),
{
    assert forall|v: TXOutputV, r: Seq<u8>| s.contains(v) implies #[trigger] dec_output_fn()(
        canon_output_fn()(v) + r,
    ) == Some((v, canon_output_fn()(v).len() as int)) by {
        let j = choose|j: int| 0 <= j < s.len() && s[j] == v;
        assert(output_ok(s[j]));
        lemma_dec_output(v, r);
    }
    lemma_dec_list(s, rest, canon_output_fn(), dec_output_fn());
}

pub proof fn lemma_dec_inputs(s: Seq<TXInputV>, rest: Seq<u8>)
    requires
        inputs_ok(s),
    ensures
        dec_inputs(canon_inputs(s) + rest) == Some((s, canon_inputs(s).len() as int)),
{
    assert forall|v: TXInputV, r: Seq<u8>| s.contains(v) implies #[trigger] dec_input_fn()(
        canon_input_fn()(v) + r,
    ) == Some((v, canon_input_fn()(v).len() as int)) by {
        let j = choose|j: int| 0 <= j < s.len() && s[j] == v;
        assert(input_ok(s[j]));
        lemma_dec_input(v, r);
    }
    lemma_dec_list(s, rest, canon_input_fn(), dec_input_fn());
}

pub proof fn lemma_dec_coinbase(c: CoinbaseTXV, rest: Seq<u8>)
    requires
        coinbase_ok(c),
    ensures
        dec_coinbase(canon_coinbase(c) + rest) == Some((c, canon_coinbase(c).len() as int)),
{
    let s = canon_coinbase(c) + rest;
    assert(s =~= canon_outputs(c.outputs) + (canon_u64(c.rand) + rest));
    lemma_dec_outputs(c.outputs, canon_u64(c.rand) + rest);
    let p1 = canon_outputs(c.outputs).len() as int;
    assert(s.subrange(p1, s.len() as int) =~= canon_u64(c.rand) + rest);
    lemma_dec_u64(c.rand, rest);
    lemma_canon_u64_len(c.rand);
}

pub proof fn lemma_dec_standard(t: StandardTXV, rest: Seq<u8>)
    requires
        standard_ok(t),
    ensures
        dec_standard(canon_standard(t) + rest) == Some((t, canon_standard(t).len() as int)),
{
    let s = canon_standard(t) + rest;
    assert(s =~= canon_outputs(t.outputs) + (canon_inputs(t.inputs) + rest));
    lemma_dec_outputs(t.outputs, canon_inputs(t.inputs) + rest);
    let p1 = canon_outputs(t.outputs).len() as int;
    assert(s.subrange(p1, s.len() as int) =~= canon_inputs(t.inputs) + rest);
    lemma_dec_inputs(t.inputs, rest);
}

pub proof fn lemma_dec_tx(t: TXV, rest: Seq<u8>)
    requires
        tx_ok(t),
    ensures
        dec_tx(canon_tx(t) + rest) == Some((t, canon_tx(t).len() as int)),
{
    let s = canon_tx(t) + rest;
    match t {
        TXV::Coinbase(c) => {
            assert(s[0] == TAG_COINBASE);
            assert(s.subrange(1, s.len() as int) =~= canon_coinbase(c) + rest);
            lemma_dec_coinbase(c, rest);
        },
        TXV::Standard(st) => {
            assert(s[0] == TAG_STANDARD);
            assert(s.subrange(1, s.len() as int) =~= canon_standard(st) + rest);
            lemma_dec_standard(st, rest);
        },
    }
}

pub proof fn lemma_dec_txs(s: Seq<TXV>, rest: Seq<u8>)
    requires
        txs_ok(s),
    ensures
        dec_txs(canon_txs(s) + rest) == Some((s, canon_txs(s).len() as int)),
{
    assert forall|v: TXV, r: Seq<u8>| s.contains(v) implies #[trigger] dec_tx_fn()(
        canon_tx_fn()(v) + r,
    ) == Some((v, canon_tx_fn()(v).len() as int)) by {
        let j = choose|j: int| 0 <= j < s.len() && s[j] == v;
        assert(tx_ok(s[j]));
        lemma_dec_tx(v, r);
    }
    lemma_dec_list(s, rest, canon_tx_fn(), dec_tx_fn());
}

#[verifier::rlimit(100)]
pub proof fn lemma_dec_block(b: BlockV, rest: Seq<u8>)
    requires
        block_ok(b),
    ensures
        dec_block(canon_block(b) + rest) == Some((b, canon_block(b).len() as int)),
{
    let s = canon_block(b) + rest;
    let c2 = canon_txs(b.transactions);
    let c3 = canon_str(b.prev_block_hash);
    let c4 = canon_i64(b.nonce);
    assert(s =~= canon_i64(b.timestamp) + (c2 + (c3 + (c4 + rest))));
    lemma_dec_i64(b.timestamp, c2 + (c3 + (c4 + rest)));
    lemma_canon_u64_len(b.timestamp as u64);
    let p1 = 8int;
    assert(s.subrange(p1, s.len() as int) =~= c2 + (c3 + (c4 + rest)));
    lemma_dec_txs(b.transactions, c3 + (c4 + rest));
    let p2 = c2.len() as int;
    assert(s.subrange(p1 + p2, s.len() as int) =~= c3 + (c4 + rest));
    lemma_dec_str(b.prev_block_hash, c4 + rest);
    vstd::utf8::is_ascii_chars_encode_utf8(b.prev_block_hash);
    lemma_canon_u64_len(b.prev_block_hash.len() as u64);
    let p3 = c3.len() as int;
    assert(s.subrange(p1 + p2 + p3, s.len() as int) =~= c4 + rest);
    lemma_dec_i64(b.nonce, rest);
    lemma_canon_u64_len(b.nonce as u64);
    lemma_canon_u64_len(b.timestamp as u64);
}

pub proof fn lemma_dec_blocks(s: Seq<BlockV>, rest: Seq<u8>)
    requires
        blocks_ok(s),
    ensures
        dec_blocks(canon_blocks(s) + rest) == Some((s, canon_blocks(s).len() as int)),
{
    assert forall|v: BlockV, r: Seq<u8>| s.contains(v) implies #[trigger] dec_block_fn()(
        canon_block_fn()(v) + r,
    ) == Some((v, canon_block_fn()(v).len() as int)) by {
        let j = choose|j: int| 0 <= j < s.len() && s[j] == v;
        assert(block_ok(s[j]));
        lemma_dec_block(v, r);
    }
    lemma_dec_list(s, rest, canon_block_fn(), dec_block_fn());
}

// ===================== record encoders =====================

pub fn encode_output(buf: &mut Vec<u8>, o: &TXOutput)
    requires
        output_ok(o@),
    ensures
        final(buf)@ == old(buf)@ + canon_output(o@),
{
    encode_u64(buf, o.value);
    encode_str(buf, o.pubkey_hash.as_str());
    proof {
        assert(buf@ =~= old(buf)@ + canon_output(o@));
    }
}

pub fn encode_input(buf: &mut Vec<u8>, x: &TXInput)
    requires
        input_ok(x@),
    ensures
        final(buf)@ == old(buf)@ + canon_input(x@),
{
    encode_str(buf, x.txid.as_str());
    encode_u64(buf, x.vout as u64);
    encode_bytes(buf, x.signature.as_slice());
    encode_bytes(buf, x.pubkey.as_slice());
    proof {
        assert(buf@ =~= old(buf)@ + canon_input(x@));
    }
}

#[verifier::loop_isolation(false)]
pub fn encode_outputs(buf: &mut Vec<u8>, v: &Vec<TXOutput>)
    requires
        outputs_ok(view_outputs(v@)),
    ensures
        final(buf)@ == old(buf)@ + canon_outputs(view_outputs(v@)),
{
    let ghost m = view_outputs(v@);
    encode_u64(buf, v.len() as u64);
    let n = v.len();
    let mut i: usize = 0;
    while i < n
        invariant
            i <= n,
            buf@ == old(buf)@ + canon_u64(n as u64) + canon_items(m.take(i as int), canon_output_fn()),
        decreases n - i,
    {
        proof {
            assert(canon_items(Seq::<TXOutputV>::empty(), canon_output_fn())
                == Seq::<u8>::empty());
            assert(m[i as int] == v@[i as int]@);
            assert(output_ok(m[i as int]));
        }
        encode_output(buf, &v[i]);
        proof {
            assert(m.take(i + 1) =~= m.take(i as int).push(m[i as int]));
            lemma_canon_items_push(m.take(i as int), m[i as int], canon_output_fn());
            assert(canon_output_fn()(m[i as int]) == canon_output(v@[i as int]@));
            assert(buf@ =~= old(buf)@ + canon_u64(n as u64)
                + canon_items(m.take(i + 1), canon_output_fn()));
        }
        i = i + 1;
    }
    proof {
        assert(m.take(n as int) =~= m);
        assert(buf@ =~= old(buf)@ + canon_outputs(m));
    }
}

#[verifier::loop_isolation(false)]
pub fn encode_inputs(buf: &mut Vec<u8>, v: &Vec<TXInput>)
    requires
        inputs_ok(view_inputs(v@)),
    ensures
        final(buf)@ == old(buf)@ + canon_inputs(view_inputs(v@)),
{
    let ghost m = view_inputs(v@);
    encode_u64(buf, v.len() as u64);
    let n = v.len();
    let mut i: usize = 0;
    while i < n
        invariant
            i <= n,
            buf@ == old(buf)@ + canon_u64(n as u64) + canon_items(m.take(i as int), canon_input_fn()),
        decreases n - i,
    {
        proof {
            assert(canon_items(Seq::<TXInputV>::empty(), canon_input_fn()) == Seq::<u8>::empty());
            assert(m[i as int] == v@[i as int]@);
            assert(input_ok(m[i as int]));
        }
        encode_input(buf, &v[i]);
        proof {
            assert(m.take(i + 1) =~= m.take(i as int).push(m[i as int]));
            lemma_canon_items_push(m.take(i as int), m[i as int], canon_input_fn());
            assert(buf@ =~= old(buf)@ + canon_u64(n as u64)
                + canon_items(m.take(i + 1), canon_input_fn()));
        }
        i = i + 1;
    }
    proof {
        assert(m.take(n as int) =~= m);
        assert(buf@ =~= old(buf)@ + canon_inputs(m));
    }
}

/// The hashed payload of a transaction: the canonical bytes of the wrapped
/// record, without the variant tag.
pub fn encode_tx_payload(buf: &mut Vec<u8>, t: &TX)
    requires
        tx_ok(t@),
    ensures
        final(buf)@ == old(buf)@ + match t@ {
            TXV::Coinbase(c) => canon_coinbase(c),
            TXV::Standard(s) => canon_standard(s),
        },
{
    match t {
        TX::Coinbase(c) => {
            encode_outputs(buf, &c.outputs);
            encode_u64(buf, c.rand);
            proof {
                assert(buf@ =~= old(buf)@ + canon_coinbase(c@));
            }
        },
        TX::Standard(st) => {
            encode_outputs(buf, &st.outputs);
            encode_inputs(buf, &st.inputs);
            proof {
                assert(buf@ =~= old(buf)@ + canon_standard(st@));
            }
        },
    }
}

pub fn encode_tx(buf: &mut Vec<u8>, t: &TX)
    requires
        tx_ok(t@),
    ensures
        final(buf)@ == old(buf)@ + canon_tx(t@),
{
    match t {
        TX::Coinbase(_) => buf.push(TAG_COINBASE),
        TX::Standard(_) => buf.push(TAG_STANDARD),
    }
    encode_tx_payload(buf, t);
    proof {
        assert(buf@ =~= old(buf)@ + canon_tx(t@));
    }
}

#[verifier::loop_isolation(false)]
pub fn encode_txs(buf: &mut Vec<u8>, v: &Vec<TX>)
    requires
        txs_ok(view_txs(v@)),
    ensures
        final(buf)@ == old(buf)@ + canon_txs(view_txs(v@)),
{
    let ghost m = view_txs(v@);
    encode_u64(buf, v.len() as u64);
    let n = v.len();
    let mut i: usize = 0;
    while i < n
        invariant
            i <= n,
            buf@ == old(buf)@ + canon_u64(n as u64) + canon_items(m.take(i as int), canon_tx_fn()),
        decreases n - i,
    {
        proof {
            assert(canon_items(Seq::<TXV>::empty(), canon_tx_fn()) == Seq::<u8>::empty());
            assert(m[i as int] == v@[i as int]@);
            assert(tx_ok(m[i as int]));
        }
        encode_tx(buf, &v[i]);
        proof {
            assert(m.take(i + 1) =~= m.take(i as int).push(m[i as int]));
            lemma_canon_items_push(m.take(i as int), m[i as int], canon_tx_fn());
            assert(buf@ =~= old(buf)@ + canon_u64(n as u64)
                + canon_items(m.take(i + 1), canon_tx_fn()));
        }
        i = i + 1;
    }
    proof {
        assert(m.take(n as int) =~= m);
        assert(buf@ =~= old(buf)@ + canon_txs(m));
    }
}

pub fn encode_block(buf: &mut Vec<u8>, b: &Block)
    requires
        block_ok(b@),
    ensures
        final(buf)@ == old(buf)@ + canon_block(b@),
{
    encode_i64(buf, b.timestamp);
    encode_txs(buf, &b.transactions);
    encode_str(buf, b.prev_block_hash.as_str());
    encode_i64(buf, b.nonce);
    proof {
        assert(buf@ =~= old(buf)@ + canon_block(b@));
    }
}

#[verifier::loop_isolation(false)]
pub fn encode_blocks(buf: &mut Vec<u8>, v: &Vec<Block>)
    requires
        blocks_ok(view_blocks(v@)),
    ensures
        final(buf)@ == old(buf)@ + canon_blocks(view_blocks(v@)),
{
    let ghost m = view_blocks(v@);
    encode_u64(buf, v.len() as u64);
    let n = v.len();
    let mut i: usize = 0;
    while i < n
        invariant
            i <= n,
            buf@ == old(buf)@ + canon_u64(n as u64) + canon_items(m.take(i as int), canon_block_fn()),
        decreases n - i,
    {
        proof {
            assert(canon_items(Seq::<BlockV>::empty(), canon_block_fn()) == Seq::<u8>::empty());
            assert(m[i as int] == v@[i as int]@);
            assert(block_ok(m[i as int]));
        }
        encode_block(buf, &v[i]);
        proof {
            assert(m.take(i + 1) =~= m.take(i as int).push(m[i as int]));
            lemma_canon_items_push(m.take(i as int), m[i as int], canon_block_fn());
            assert(buf@ =~= old(buf)@ + canon_u64(n as u64)
                + canon_items(m.take(i + 1), canon_block_fn()));
        }
        i = i + 1;
    }
    proof {
        assert(m.take(n as int) =~= m);
        assert(buf@ =~= old(buf)@ + canon_blocks(m));
    }
}

// ===================== record decoders =====================

pub fn decode_output(buf: &[u8], pos: usize) -> (r: Option<(TXOutput, usize)>)
    requires
        pos <= buf@.len(),
    ensures
        match r {
            None => dec_output(buf@.skip(pos as int)) is None,
            Some((x, q)) => pos <= q <= buf@.len() && dec_output(buf@.skip(pos as int)) == Some(
                (x@, q - pos),
            ) && output_ok(x@),
        },
{
    let ghost s = buf@.skip(pos as int);
    match decode_u64(buf, pos) {
        None => None,
        Some((value, q1)) => {
            proof {
                assert(s.subrange((q1 - pos) as int, s.len() as int) =~= buf@.skip(q1 as int));
            }
            match decode_string(buf, q1) {
                None => None,
                Some((h, q2)) => Some((TXOutput { value: value, pubkey_hash: h }, q2)),
            }
        },
    }
}

pub fn decode_input(buf: &[u8], pos: usize) -> (r: Option<(TXInput, usize)>)
    requires
        pos <= buf@.len(),
    ensures
        match r {
            None => dec_input(buf@.skip(pos as int)) is None,
            Some((x, q)) => pos <= q <= buf@.len() && dec_input(buf@.skip(pos as int)) == Some(
                (x@, q - pos),
            ) && input_ok(x@),
        },
{
    let ghost s = buf@.skip(pos as int);
    match decode_string(buf, pos) {
        None => None,
        Some((txid, q1)) => {
            proof {
                assert(s.subrange((q1 - pos) as int, s.len() as int) =~= buf@.skip(q1 as int));
            }
            match decode_u64(buf, q1) {
                None => None,
                Some((vu, q2)) => {
                    proof {
                        assert(s.subrange((q2 - pos) as int, s.len() as int) =~= buf@.skip(
                            q2 as int,
                        ));
                    }
                    if vu > usize::MAX as u64 {
                        return None;
                    }
                    match decode_bytes(buf, q2) {
                        None => None,
                        Some((sig, q3)) => {
                            proof {
                                assert(s.subrange((q3 - pos) as int, s.len() as int) =~= buf@.skip(
                                    q3 as int,
                                ));
                            }
                            match decode_bytes(buf, q3) {
                                None => None,
                                Some((pk, q4)) => Some(
                                    (
                                        TXInput {
                                            txid: txid,
                                            vout: vu as usize,
                                            signature: sig,
                                            pubkey: pk,
                                        },
                                        q4,
                                    ),
                                ),
                            }
                        },
                    }
                },
            }
        },
    }
}

fn decode_outputs_items(buf: &[u8], pos: usize, n: u64) -> (r: Option<(Vec<TXOutput>, usize)>)
    requires
        pos <= buf@.len(),
    ensures
        match r {
            None => dec_items(buf@.skip(pos as int), n as nat, dec_output_fn()) is None,
            Some((x, q)) => pos <= q <= buf@.len() && dec_items(
                buf@.skip(pos as int),
                n as nat,
                dec_output_fn(),
            ) == Some((view_outputs(x@), q - pos)) && outputs_ok(view_outputs(x@)),
        },
    decreases n,
{
    let ghost s = buf@.skip(pos as int);
    proof {
        assert(dec_output_fn()(s) == dec_output(s));
    }
    if n == 0 {
        let v: Vec<TXOutput> = Vec::new();
        proof {
            assert(view_outputs(v@) =~= Seq::<TXOutputV>::empty());
        }
        return Some((v, pos));
    }
    match decode_output(buf, pos) {
        None => None,
        Some((o, q1)) => {
            proof {
                assert(s.subrange((q1 - pos) as int, s.len() as int) =~= buf@.skip(q1 as int));
            }
            match decode_outputs_items(buf, q1, n - 1) {
                None => None,
                Some((mut v, q2)) => {
                    let ghost tailview = view_outputs(v@);
                    v.insert(0, o);
                    proof {
                        vstd::std_specs::vec::axiom_spec_len(&v);
                        assert(view_outputs(v@) =~= seq![o@] + tailview);
                        assert forall|i: int| 0 <= i < view_outputs(v@).len() implies output_ok(
                            #[trigger] view_outputs(v@)[i],
                        ) by {
                            if i > 0 {
                                assert(view_outputs(v@)[i] == tailview[i - 1]);
                            }
                        }
                    }
                    Some((v, q2))
                },
            }
        },
    }
}

pub fn decode_outputs(buf: &[u8], pos: usize) -> (r: Option<(Vec<TXOutput>, usize)>)
    requires
        pos <= buf@.len(),
    ensures
        match r {
            None => dec_outputs(buf@.skip(pos as int)) is None,
            Some((x, q)) => pos <= q <= buf@.len() && dec_outputs(buf@.skip(pos as int)) == Some(
                (view_outputs(x@), q - pos),
            ) && outputs_ok(view_outputs(x@)),
        },
{
    let ghost s = buf@.skip(pos as int);
    match decode_u64(buf, pos) {
        None => None,
        Some((n, q1)) => {
            proof {
                assert(s.subrange((q1 - pos) as int, s.len() as int) =~= buf@.skip(q1 as int));
            }
            match decode_outputs_items(buf, q1, n) {
                None => None,
                Some((v, q2)) => Some((v, q2)),
            }
        },
    }
}

fn decode_inputs_items(buf: &[u8], pos: usize, n: u64) -> (r: Option<(Vec<TXInput>, usize)>)
    requires
        pos <= buf@.len(),
    ensures
        match r {
            None => dec_items(buf@.skip(pos as int), n as nat, dec_input_fn()) is None,
            Some((x, q)) => pos <= q <= buf@.len() && dec_items(
                buf@.skip(pos as int),
                n as nat,
                dec_input_fn(),
            ) == Some((view_inputs(x@), q - pos)) && inputs_ok(view_inputs(x@)),
        },
    decreases n,
{
    let ghost s = buf@.skip(pos as int);
    proof {
        assert(dec_input_fn()(s) == dec_input(s));
    }
    if n == 0 {
        let v: Vec<TXInput> = Vec::new();
        proof {
            assert(view_inputs(v@) =~= Seq::<TXInputV>::empty());
        }
        return Some((v, pos));
    }
    match decode_input(buf, pos) {
        None => None,
        Some((o, q1)) => {
            proof {
                assert(s.subrange((q1 - pos) as int, s.len() as int) =~= buf@.skip(q1 as int));
            }
            match decode_inputs_items(buf, q1, n - 1) {
                None => None,
                Some((mut v, q2)) => {
                    let ghost tailview = view_inputs(v@);
                    v.insert(0, o);
                    proof {
                        vstd::std_specs::vec::axiom_spec_len(&v);
                        assert(view_inputs(v@) =~= seq![o@] + tailview);
                        assert forall|i: int| 0 <= i < view_inputs(v@).len() implies input_ok(
                            #[trigger] view_inputs(v@)[i],
                        ) by {
                            if i > 0 {
                                assert(view_inputs(v@)[i] == tailview[i - 1]);
                            }
                        }
                    }
                    Some((v, q2))
                },
            }
        },
    }
}

pub fn decode_inputs(buf: &[u8], pos: usize) -> (r: Option<(Vec<TXInput>, usize)>)
    requires
        pos <= buf@.len(),
    ensures
        match r {
            None => dec_inputs(buf@.skip(pos as int)) is None,
            Some((x, q)) => pos <= q <= buf@.len() && dec_inputs(buf@.skip(pos as int)) == Some(
                (view_inputs(x@), q - pos),
            ) && inputs_ok(view_inputs(x@)),
        },
{
    let ghost s = buf@.skip(pos as int);
    match decode_u64(buf, pos) {
        None => None,
        Some((n, q1)) => {
            proof {
                assert(s.subrange((q1 - pos) as int, s.len() as int) =~= buf@.skip(q1 as int));
            }
            match decode_inputs_items(buf, q1, n) {
                None => None,
                Some((v, q2)) => Some((v, q2)),
            }
        },
    }
}

pub fn decode_tx(buf: &[u8], pos: usize) -> (r: Option<(TX, usize)>)
    requires
        pos <= buf@.len(),
    ensures
        match r {
            None => dec_tx(buf@.skip(pos as int)) is None,
            Some((x, q)) => pos <= q <= buf@.len() && dec_tx(buf@.skip(pos as int)) == Some(
                (x@, q - pos),
            ) && tx_ok(x@),
        },
    decreases buf@.len() - pos,
{
    let ghost s = buf@.skip(pos as int);
    if pos >= buf.len() {
        return None;
    }
    let tag = buf[pos];
    proof {
        assert(s[0] == tag);
        assert(s.subrange(1, s.len() as int) =~= buf@.skip(pos + 1));
    }
    if tag == TAG_COINBASE {
        match decode_outputs(buf, pos + 1) {
            None => None,
            Some((outs, q1)) => {
                proof {
                    assert(buf@.skip(pos + 1).subrange(
                        (q1 - (pos + 1)) as int,
                        buf@.skip(pos + 1).len() as int,
                    ) =~= buf@.skip(q1 as int));
                }
                match decode_u64(buf, q1) {
                    None => None,
                    Some((rand, q2)) => {
                        let c = CoinbaseTX { outputs: outs, rand: rand };
                        Some((TX::Coinbase(c), q2))
                    },
                }
            },
        }
    } else if tag == TAG_STANDARD {
        match decode_outputs(buf, pos + 1) {
            None => None,
            Some((outs, q1)) => {
                proof {
                    assert(buf@.skip(pos + 1).subrange(
                        (q1 - (pos + 1)) as int,
                        buf@.skip(pos + 1).len() as int,
                    ) =~= buf@.skip(q1 as int));
                }
                match decode_inputs(buf, q1) {
                    None => None,
                    Some((ins, q2)) => {
                        let st = StandardTX { outputs: outs, inputs: ins };
                        Some((TX::Standard(st), q2))
                    },
                }
            },
        }
    } else {
        None
    }
}

fn decode_txs_items(buf: &[u8], pos: usize, n: u64) -> (r: Option<(Vec<TX>, usize)>)
    requires
        pos <= buf@.len(),
    ensures
        match r {
            None => dec_items(buf@.skip(pos as int), n as nat, dec_tx_fn()) is None,
            Some((x, q)) => pos <= q <= buf@.len() && dec_items(
                buf@.skip(pos as int),
                n as nat,
                dec_tx_fn(),
            ) == Some((view_txs(x@), q - pos)) && txs_ok(view_txs(x@)),
        },
    decreases n,
{
    let ghost s = buf@.skip(pos as int);
    proof {
        assert(dec_tx_fn()(s) == dec_tx(s));
    }
    if n == 0 {
        let v: Vec<TX> = Vec::new();
        proof {
            assert(view_txs(v@) =~= Seq::<TXV>::empty());
        }
        return Some((v, pos));
    }
    match decode_tx(buf, pos) {
        None => None,
        Some((o, q1)) => {
            proof {
                assert(s.subrange((q1 - pos) as int, s.len() as int) =~= buf@.skip(q1 as int));
            }
            match decode_txs_items(buf, q1, n - 1) {
                None => None,
                Some((mut v, q2)) => {
                    let ghost tailview = view_txs(v@);
                    v.insert(0, o);
                    proof {
                        vstd::std_specs::vec::axiom_spec_len(&v);
                        assert(view_txs(v@) =~= seq![o@] + tailview);
                        assert forall|i: int| 0 <= i < view_txs(v@).len() implies tx_ok(
                            #[trigger] view_txs(v@)[i],
                        ) by {
                            if i > 0 {
                                assert(view_txs(v@)[i] == tailview[i - 1]);
                            }
                        }
                    }
                    Some((v, q2))
                },
            }
        },
    }
}

pub fn decode_txs(buf: &[u8], pos: usize) -> (r: Option<(Vec<TX>, usize)>)
    requires
        pos <= buf@.len(),
    ensures
        match r {
            None => dec_txs(buf@.skip(pos as int)) is None,
            Some((x, q)) => pos <= q <= buf@.len() && dec_txs(buf@.skip(pos as int)) == Some(
                (view_txs(x@), q - pos),
            ) && txs_ok(view_txs(x@)),
        },
{
    let ghost s = buf@.skip(pos as int);
    match decode_u64(buf, pos) {
        None => None,
        Some((n, q1)) => {
            proof {
                assert(s.subrange((q1 - pos) as int, s.len() as int) =~= buf@.skip(q1 as int));
            }
            match decode_txs_items(buf, q1, n) {
                None => None,
                Some((v, q2)) => Some((v, q2)),
            }
        },
    }
}

pub fn decode_block(buf: &[u8], pos: usize) -> (r: Option<(Block, usize)>)
    requires
        pos <= buf@.len(),
    ensures
        match r {
            None => dec_block(buf@.skip(pos as int)) is None,
            Some((x, q)) => pos <= q <= buf@.len() && dec_block(buf@.skip(pos as int)) == Some(
                (x@, q - pos),
            ) && block_ok(x@),
        },
{
    let ghost s = buf@.skip(pos as int);
    match decode_i64(buf, pos) {
        None => None,
        Some((ts, q1)) => {
            proof {
                assert(s.subrange((q1 - pos) as int, s.len() as int) =~= buf@.skip(q1 as int));
            }
            match decode_txs(buf, q1) {
                None => None,
                Some((txs, q2)) => {
                    proof {
                        assert(s.subrange((q2 - pos) as int, s.len() as int) =~= buf@.skip(
                            q2 as int,
                        ));
                    }
                    match decode_string(buf, q2) {
                        None => None,
                        Some((prev, q3)) => {
                            proof {
                                assert(s.subrange((q3 - pos) as int, s.len() as int) =~= buf@.skip(
                                    q3 as int,
                                ));
                            }
                            match decode_i64(buf, q3) {
                                None => None,
                                Some((nonce, q4)) => Some(
                                    (
                                        Block {
                                            timestamp: ts,
                                            transactions: txs,
                                            prev_block_hash: prev,
                                            nonce: nonce,
                                        },
                                        q4,
                                    ),
                                ),
                            }
                        },
                    }
                },
            }
        },
    }
}

fn decode_blocks_items(buf: &[u8], pos: usize, n: u64) -> (r: Option<(Vec<Block>, usize)>)
    requires
        pos <= buf@.len(),
    ensures
        match r {
            None => dec_items(buf@.skip(pos as int), n as nat, dec_block_fn()) is None,
            Some((x, q)) => pos <= q <= buf@.len() && dec_items(
                buf@.skip(pos as int),
                n as nat,
                dec_block_fn(),
            ) == Some((view_blocks(x@), q - pos)) && blocks_ok(view_blocks(x@)),
        },
    decreases n,
{
    let ghost s = buf@.skip(pos as int);
    proof {
        assert(dec_block_fn()(s) == dec_block(s));
    }
    if n == 0 {
        let v: Vec<Block> = Vec::new();
        proof {
            assert(view_blocks(v@) =~= Seq::<BlockV>::empty());
        }
        return Some((v, pos));
    }
    match decode_block(buf, pos) {
        None => None,
        Some((o, q1)) => {
            proof {
                assert(s.subrange((q1 - pos) as int, s.len() as int) =~= buf@.skip(q1 as int));
            }
            match decode_blocks_items(buf, q1, n - 1) {
                None => None,
                Some((mut v, q2)) => {
                    let ghost tailview = view_blocks(v@);
                    v.insert(0, o);
                    proof {
                        vstd::std_specs::vec::axiom_spec_len(&v);
                        assert(view_blocks(v@) =~= seq![o@] + tailview);
                        assert forall|i: int| 0 <= i < view_blocks(v@).len() implies block_ok(
                            #[trigger] view_blocks(v@)[i],
                        ) by {
                            if i > 0 {
                                assert(view_blocks(v@)[i] == tailview[i - 1]);
                            }
                        }
                    }
                    Some((v, q2))
                },
            }
        },
    }
}

pub fn decode_blocks(buf: &[u8], pos: usize) -> (r: Option<(Vec<Block>, usize)>)
    requires
        pos <= buf@.len(),
    ensures
        match r {
            None => dec_blocks(buf@.skip(pos as int)) is None,
            Some((x, q)) => pos <= q <= buf@.len() && dec_blocks(buf@.skip(pos as int)) == Some(
                (view_blocks(x@), q - pos),
            ) && blocks_ok(view_blocks(x@)),
        },
{
    let ghost s = buf@.skip(pos as int);
    match decode_u64(buf, pos) {
        None => None,
        Some((n, q1)) => {
            proof {
                assert(s.subrange((q1 - pos) as int, s.len() as int) =~= buf@.skip(q1 as int));
            }
            match decode_blocks_items(buf, q1, n) {
                None => None,
                Some((v, q2)) => Some((v, q2)),
            }
        },
    }
}


} // verus!
