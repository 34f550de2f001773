//! Wallets: secp256k1 keypairs identified by the hash of the public key.

use vstd::prelude::*;
use crate::codec::{self, str_ok};
use crate::hex::{hex_of, lemma_hex_of_ascii};
use crate::primitives::{self, sha256_of, pubkey_bytes_of, valid_secret_key};

verus! {

/// A keypair. The address of a wallet is the hex SHA-256 hash of its
/// compressed public key.
#[derive(Debug, Clone, PartialEq)]
pub struct Wallet {
    pub secret_key: Vec<u8>,
    pub public_key: Vec<u8>,
}

/// Mathematical model of a `Wallet`.
pub struct WalletV {
    pub secret_key: Seq<u8>,
    pub public_key: Seq<u8>,
}

impl View for Wallet {
    type V = WalletV;

    open spec fn view(&self) -> WalletV {
        WalletV { secret_key: self.secret_key@, public_key: self.public_key@ }
    }
}

/// A wallet whose public key really is derived from its secret key.
pub open spec fn wallet_wf(w: WalletV) -> bool {
    &&& w.secret_key.len() == 32
    &&& valid_secret_key(w.secret_key)
    &&& w.public_key == pubkey_bytes_of(w.secret_key)
}

/// The address owned by a public key: the hex SHA-256 of its bytes.
pub open spec fn address_of(pubkey: Seq<u8>) -> Seq<char> {
    hex_of(sha256_of(pubkey))
}

/// Hash a compressed public key into its address.
pub fn hash_public_key(pubkey: &Vec<u8>) -> (r: String)
    ensures
        r@ == address_of(pubkey@),
        str_ok(r@),
{
    let d = primitives::sha256_digest(pubkey.as_slice());
    proof {
        lemma_hex_of_ascii(d@);
    }
    crate::hex::bytes_to_hex(d.as_slice())
}

impl Wallet {
    /// A fresh keypair.
    pub fn new() -> (r: Wallet)
        ensures
            wallet_wf(r@),
    {
        let (sk, pk) = primitives::generate_keypair();
        Wallet { secret_key: sk, public_key: pk }
    }

    /// This wallet's address.
    pub fn address(&self) -> (r: String)
        ensures
            r@ == address_of(self@.public_key),
            str_ok(r@),
    {
        hash_public_key(&self.public_key)
    }
}

/// One keystore entry as the codec sees it: address, then the two key byte
/// strings.
pub open spec fn canon_wentry(p: (Seq<char>, WalletV)) -> Seq<u8> {
    codec::canon_str(p.0) + codec::canon_bytes(p.1.secret_key) + codec::canon_bytes(p.1.public_key)
}

/// The entry serializer as a function value.
pub open spec fn canon_wentry_fn() -> spec_fn((Seq<char>, WalletV)) -> Seq<u8> {
    |p: (Seq<char>, WalletV)| canon_wentry(p)
}

/// The canonical snapshot of a keystore.
pub open spec fn canon_wallets(s: Seq<(Seq<char>, WalletV)>) -> Seq<u8> {
    codec::canon_list(s, canon_wentry_fn())
}

/// The entry parser.
pub open spec fn dec_wentry(s: Seq<u8>) -> Option<((Seq<char>, WalletV), int)> {
    match codec::dec_str(s) {
        Some((a, p1)) => match codec::dec_bytes(s.subrange(p1, s.len() as int)) {
            Some((sk, p2)) => match codec::dec_bytes(s.subrange(p1 + p2, s.len() as int)) {
                Some((pk, p3)) => Some(
                    ((a, WalletV { secret_key: sk, public_key: pk }), p1 + p2 + p3),
                ),
                None => None,
            },
            None => None,
        },
        None => None,
    }
}

/// The entry parser as a function value.
pub open spec fn dec_wentry_fn() -> spec_fn(Seq<u8>) -> Option<((Seq<char>, WalletV), int)> {
    |s: Seq<u8>| dec_wentry(s)
}

/// Every stored wallet really derives its public key from its secret key.
pub open spec fn wallets_wf(s: Seq<(Seq<char>, WalletV)>) -> bool {
    forall|i: int| 0 <= i < s.len() ==> wallet_wf((#[trigger] s[i]).1)
}

/// The parse of a keystore snapshot: the whole input must be one entry list
/// whose wallets are all well formed.
pub open spec fn parse_wallets(b: Seq<u8>) -> Option<Seq<(Seq<char>, WalletV)>> {
    match codec::dec_list(b, dec_wentry_fn()) {
        Some((es, p)) => if p == b.len() && wallets_wf(es) {
            Some(es)
        } else {
            None
        },
        None => None,
    }
}

/// The first wallet stored under an address.
pub open spec fn lookup(s: Seq<(Seq<char>, WalletV)>, a: Seq<char>) -> Option<WalletV>
    decreases s.len(),
{
    if s.len() == 0 {
        None
    } else if s.first().0 == a {
        Some(s.first().1)
    } else {
        lookup(s.drop_first(), a)
    }
}

/// The store without any entry under the given address.
pub open spec fn remove_key(s: Seq<(Seq<char>, WalletV)>, a: Seq<char>) -> Seq<
    (Seq<char>, WalletV),
>
    decreases s.len(),
{
    if s.len() == 0 {
        s
    } else {
        remove_key(s.drop_last(), a) + (if s.last().0 == a {
            Seq::empty()
        } else {
            seq![s.last()]
        })
    }
}

/// Entries of the keystore are encodable.
pub open spec fn wallets_encodable(s: Seq<(Seq<char>, WalletV)>) -> bool {
    &&& codec::fits_u64(s.len())
    &&& forall|i: int|
        0 <= i < s.len() ==> codec::str_ok((#[trigger] s[i]).0) && codec::bytes_ok(s[i].1.secret_key)
            && codec::bytes_ok(s[i].1.public_key)
}

/// The keystore: address to keypair.
#[derive(Debug)]
pub struct Wallets {
    entries: Vec<(String, Wallet)>,
}

impl View for Wallets {
    type V = Seq<(Seq<char>, WalletV)>;

    closed spec fn view(&self) -> Seq<(Seq<char>, WalletV)> {
        self.entries@.map_values(|p: (String, Wallet)| (p.0@, p.1@))
    }
}

impl Wallets {
    /// Every stored wallet is well formed and every entry is encodable.
    #[verifier::type_invariant]
    spec fn inv(self) -> bool {
        wallets_wf(self@) && wallets_encodable(self@)
    }

    /// An empty keystore.
    pub fn new() -> (r: Wallets)
        ensures
            r@ == Seq::<(Seq<char>, WalletV)>::empty(),
    {
        let r = Wallets { entries: Vec::new() };
        proof {
            assert(r@ =~= Seq::<(Seq<char>, WalletV)>::empty());
        }
        r
    }

    /// The first wallet stored under an address; `None` is the
    /// no-wallet-for-address case.
    #[verifier::loop_isolation(false)]
    pub fn get(&self, address: &str) -> (r: Option<&Wallet>)
        ensures
            match r {
                Some(w) => lookup(self@, address@) == Some(w@) && wallet_wf(w@),
                None => lookup(self@, address@) is None,
            },
    {
        proof {
            use_type_invariant(&*self);
        }
        let ghost sv = self@;
        let a = address.to_owned();
        let n = self.entries.len();
        proof {
            assert(sv.skip(0) =~= sv);
        }
        let mut i: usize = 0;
        while i < n
            invariant
                i <= n,
                n == sv.len(),
                lookup(sv, address@) == lookup(sv.skip(i as int), address@),
            decreases n - i,
        {
            proof {
                assert(sv.skip(i as int).first() == sv[i as int]);
                assert(sv.skip(i as int).drop_first() =~= sv.skip(i + 1));
                assert(sv[i as int].0 == self.entries@[i as int].0@);
            }
            if self.entries[i].0 == a {
                return Some(&self.entries[i].1);
            }
            i = i + 1;
        }
        proof {
            assert(sv.skip(n as int) =~= Seq::<(Seq<char>, WalletV)>::empty());
        }
        None
    }

    /// Store a wallet under its address, replacing any wallet already
    /// stored there.
    #[verifier::loop_isolation(false)]
    pub fn add(&mut self, wallet: Wallet)
        requires
            wallet_wf(wallet@),
        ensures
            final(self)@ == remove_key(old(self)@, address_of(wallet@.public_key)).push(
                (address_of(wallet@.public_key), wallet@),
            ),
    {
        proof {
            use_type_invariant(&*self);
        }
        let ghost oldv = self@;
        let address = hash_public_key(&wallet.public_key);
        let mut tmp = Wallets { entries: Vec::new() };
        proof {
            assert(tmp@ =~= Seq::<(Seq<char>, WalletV)>::empty());
        }
        core::mem::swap(self, &mut tmp);
        let Wallets { entries } = tmp;
        let n = entries.len();
        let mut kept: Vec<(String, Wallet)> = Vec::new();
        proof {
            assert(oldv.take(0) =~= Seq::<(Seq<char>, WalletV)>::empty());
        }
        let mut i: usize = 0;
        while i < n
            invariant
                i <= n,
                n == oldv.len(),
                oldv == entries@.map_values(|p: (String, Wallet)| (p.0@, p.1@)),
                address@ == address_of(wallet@.public_key),
                kept@.map_values(|p: (String, Wallet)| (p.0@, p.1@)) == remove_key(
                    oldv.take(i as int),
                    address@,
                ),
                forall|j: int|
                    0 <= j < kept@.len() ==> wallet_wf((#[trigger] kept@[j]).1@) && codec::str_ok(
                        kept@[j].0@,
                    ) && codec::bytes_ok(kept@[j].1@.secret_key) && codec::bytes_ok(
                        kept@[j].1@.public_key,
                    ),
            decreases n - i,
        {
            let ghost kv = kept@.map_values(|p: (String, Wallet)| (p.0@, p.1@));
            proof {
                assert(oldv.take(i + 1).drop_last() =~= oldv.take(i as int));
                assert(oldv.take(i + 1).last() == oldv[i as int]);
                assert(oldv[i as int].0 == entries@[i as int].0@);
                assert(oldv[i as int].1 == entries@[i as int].1@);
            }
            if !(entries[i].0 == address) {
                kept.push((entries[i].0.clone(), entries[i].1.clone_wallet()));
                proof {
                    assert(kept@.map_values(|p: (String, Wallet)| (p.0@, p.1@)) =~= kv + seq![
                        oldv[i as int],
                    ]);
                }
            } else {
                proof {
                    assert(kept@.map_values(|p: (String, Wallet)| (p.0@, p.1@)) =~= kv
                        + Seq::<(Seq<char>, WalletV)>::empty());
                }
            }
            i = i + 1;
        }
        proof {
            assert(oldv.take(n as int) =~= oldv);
        }
        proof {
            vstd::std_specs::vec::axiom_spec_len(&wallet.secret_key);
            vstd::std_specs::vec::axiom_spec_len(&wallet.public_key);
        }
        kept.push((address, wallet));
        proof {
            vstd::std_specs::vec::axiom_spec_len(&kept);
            let kv2 = kept@.map_values(|p: (String, Wallet)| (p.0@, p.1@));
            assert forall|j: int| 0 <= j < kv2.len() implies wallet_wf((#[trigger] kv2[j]).1)
                && codec::str_ok(kv2[j].0) && codec::bytes_ok(kv2[j].1.secret_key)
                && codec::bytes_ok(kv2[j].1.public_key) by {
                if j < kv2.len() - 1 {
                    assert(kv2[j] == (kept@[j].0@, kept@[j].1@));
                }
            }
        }
        let neww = Wallets { entries: kept };
        proof {
            assert(neww@ =~= remove_key(oldv, address_of(wallet@.public_key)).push(
                (address_of(wallet@.public_key), wallet@),
            ));
        }
        *self = neww;
    }

    /// Create a fresh wallet, store it, and return its address.
    pub fn create(&mut self) -> (r: String)
        ensures
            exists|w: WalletV|
                #![trigger wallet_wf(w)]
                wallet_wf(w) && r@ == address_of(w.public_key) && final(self)@ == remove_key(
                    old(self)@,
                    r@,
                ).push((r@, w)),
    {
        let w = Wallet::new();
        let ghost wv = w@;
        let a = w.address();
        self.add(w);
        a
    }

    /// The canonical snapshot of the keystore.
    #[verifier::loop_isolation(false)]
    pub fn to_bytes(&self) -> (r: Vec<u8>)
        ensures
            r@ == canon_wallets(self@),
    {
        proof {
            use_type_invariant(&*self);
        }
        let ghost sv = self@;
        let mut buf: Vec<u8> = Vec::new();
        codec::encode_u64(&mut buf, self.entries.len() as u64);
        let n = self.entries.len();
        let mut i: usize = 0;
        while i < n
            invariant
                i <= n,
                n == sv.len(),
                sv == self@,
                buf@ == codec::canon_u64(n as u64) + codec::canon_items(
                    sv.take(i as int),
                    canon_wentry_fn(),
                ),
            decreases n - i,
        {
            proof {
                assert(codec::canon_items(Seq::<(Seq<char>, WalletV)>::empty(), canon_wentry_fn())
                    == Seq::<u8>::empty());
                assert(sv[i as int].0 == self.entries@[i as int].0@);
                assert(sv[i as int].1 == self.entries@[i as int].1@);
            }
            codec::encode_str(&mut buf, self.entries[i].0.as_str());
            codec::encode_bytes(&mut buf, self.entries[i].1.secret_key.as_slice());
            codec::encode_bytes(&mut buf, self.entries[i].1.public_key.as_slice());
            proof {
                assert(sv.take(i + 1) =~= sv.take(i as int).push(sv[i as int]));
                codec::lemma_canon_items_push(sv.take(i as int), sv[i as int], canon_wentry_fn());
                assert(canon_wentry_fn()(sv[i as int]) == canon_wentry(sv[i as int]));
                assert(buf@ =~= codec::canon_u64(n as u64) + codec::canon_items(
                    sv.take(i + 1),
                    canon_wentry_fn(),
                ));
            }
            i = i + 1;
        }
        proof {
            assert(sv.take(n as int) =~= sv);
            assert(buf@ =~= canon_wallets(sv));
        }
        buf
    }

    /// Parse a keystore snapshot; entries whose public key is not derived
    /// from the stored secret key make the snapshot invalid.
    #[verifier::loop_isolation(false)]
    #[verifier::rlimit(50)]
    pub fn from_bytes(bytes: &[u8]) -> (r: Option<Wallets>)
        ensures
            match r {
                Some(ws) => parse_wallets(bytes@) == Some(ws@),
                None => parse_wallets(bytes@) is None,
            },
    {
        proof {
            assert(bytes@.skip(0) =~= bytes@);
        }
        let (n, p0) = match codec::decode_u64(bytes, 0) {
            None => {
                return None;
            },
            Some(x) => x,
        };
        let mut entries: Vec<(String, Wallet)> = Vec::new();
        let ghost fullv = bytes@.skip(0);
        match decode_wentries(bytes, p0, n) {
            None => {
                proof {
                    assert(fullv.subrange(p0 as int, fullv.len() as int) =~= bytes@.skip(
                        p0 as int,
                    ));
                }
                return None;
            },
            Some((es, q)) => {
                proof {
                    assert(fullv.subrange(p0 as int, fullv.len() as int) =~= bytes@.skip(
                        p0 as int,
                    ));
                }
                if q != bytes.len() {
                    return None;
                }
                let ghost esv = es@.map_values(|p: (String, Wallet)| (p.0@, p.1@));
                let m = es.len();
                let mut i: usize = 0;
                while i < m
                    invariant
                        i <= m,
                        m == esv.len(),
                        esv == es@.map_values(|p: (String, Wallet)| (p.0@, p.1@)),
                        forall|j: int| 0 <= j < i ==> wallet_wf((#[trigger] esv[j]).1),
                    decreases m - i,
                {
                    proof {
                        assert(esv[i as int].1 == es@[i as int].1@);
                    }
                    match crate::primitives::derive_public_key(es[i].1.secret_key.as_slice()) {
                        None => {
                            proof {
                                assert(!wallet_wf(esv[i as int].1));
                            }
                            return None;
                        },
                        Some(pk) => {
                            if !bytes_eq(&pk, &es[i].1.public_key) {
                                proof {
                                    assert(!wallet_wf(esv[i as int].1));
                                }
                                return None;
                            }
                        },
                    }
                    i = i + 1;
                }
                let ws = Wallets { entries: es };
                proof {
                    assert(ws@ == esv);
                }
                Some(ws)
            },
        }
    }
}

/// Whether two byte strings are equal.
#[verifier::loop_isolation(false)]
fn bytes_eq(a: &Vec<u8>, b: &Vec<u8>) -> (r: bool)
    ensures
        r == (a@ == b@),
{
    if a.len() != b.len() {
        proof {
            assert(a@ != b@);
        }
        return false;
    }
    let n = a.len();
    let mut i: usize = 0;
    while i < n
        invariant
            i <= n,
            n == a@.len() == b@.len(),
            forall|j: int| 0 <= j < i ==> a@[j] == b@[j],
        decreases n - i,
    {
        if a[i] != b[i] {
            return false;
        }
        i = i + 1;
    }
    proof {
        assert(a@ =~= b@);
    }
    true
}

impl Wallet {
    /// An equal copy.
    pub fn clone_wallet(&self) -> (r: Wallet)
        ensures
            r@ == self@,
    {
        Wallet {
            secret_key: vstd::slice::slice_to_vec(self.secret_key.as_slice()),
            public_key: vstd::slice::slice_to_vec(self.public_key.as_slice()),
        }
    }
}

/// One keystore entry, decoded.
fn decode_wentry(buf: &[u8], pos: usize) -> (r: Option<((String, Wallet), usize)>)
    requires
        pos <= buf@.len(),
    ensures
        match r {
            None => dec_wentry(buf@.skip(pos as int)) is None,
            Some((x, q)) => pos <= q <= buf@.len() && dec_wentry(buf@.skip(pos as int)) == Some(
                ((x.0@, x.1@), q - pos),
            ) && codec::str_ok(x.0@),
        },
{
    let ghost s = buf@.skip(pos as int);
    match codec::decode_string(buf, pos) {
        None => None,
        Some((a, q1)) => {
            proof {
                assert(s.subrange((q1 - pos) as int, s.len() as int) =~= buf@.skip(q1 as int));
            }
            match codec::decode_bytes(buf, q1) {
                None => None,
                Some((sk, q2)) => {
                    proof {
                        assert(s.subrange((q2 - pos) as int, s.len() as int) =~= buf@.skip(
                            q2 as int,
                        ));
                    }
                    match codec::decode_bytes(buf, q2) {
                        None => None,
                        Some((pk, q3)) => Some(
                            ((a, Wallet { secret_key: sk, public_key: pk }), q3),
                        ),
                    }
                },
            }
        },
    }
}

/// A count of keystore entries, decoded in order.
fn decode_wentries(buf: &[u8], pos: usize, n: u64) -> (r: Option<(Vec<(String, Wallet)>, usize)>)
    requires
        pos <= buf@.len(),
    ensures
        match r {
            None => codec::dec_items(buf@.skip(pos as int), n as nat, dec_wentry_fn()) is None,
            Some((x, q)) => pos <= q <= buf@.len() && codec::dec_items(
                buf@.skip(pos as int),
                n as nat,
                dec_wentry_fn(),
            ) == Some((x@.map_values(|p: (String, Wallet)| (p.0@, p.1@)), q - pos))
                && wallets_encodable(x@.map_values(|p: (String, Wallet)| (p.0@, p.1@))),
        },
    decreases n,
{
    let ghost s = buf@.skip(pos as int);
    proof {
        assert(dec_wentry_fn()(s) == dec_wentry(s));
    }
    if n == 0 {
        let v: Vec<(String, Wallet)> = Vec::new();
        proof {
            assert(v@.map_values(|p: (String, Wallet)| (p.0@, p.1@)) =~= Seq::<
                (Seq<char>, WalletV),
            >::empty());
        }
        return Some((v, pos));
    }
    match decode_wentry(buf, pos) {
        None => None,
        Some((e, q1)) => {
            proof {
                assert(s.subrange((q1 - pos) as int, s.len() as int) =~= buf@.skip(q1 as int));
            }
            match decode_wentries(buf, q1, n - 1) {
                None => None,
                Some((mut v, q2)) => {
                    let ghost tailv = v@.map_values(|p: (String, Wallet)| (p.0@, p.1@));
                    let ghost ev = (e.0@, e.1@);
                    proof {
                        vstd::std_specs::vec::axiom_spec_len(&e.1.secret_key);
                        vstd::std_specs::vec::axiom_spec_len(&e.1.public_key);
                    }
                    v.insert(0, e);
                    proof {
                        vstd::std_specs::vec::axiom_spec_len(&v);
                        let nv = v@.map_values(|p: (String, Wallet)| (p.0@, p.1@));
                        assert(nv =~= seq![ev] + tailv);
                        assert forall|j: int| 0 <= j < nv.len() implies codec::str_ok(
                            (#[trigger] nv[j]).0,
                        ) && codec::bytes_ok(nv[j].1.secret_key) && codec::bytes_ok(
                            nv[j].1.public_key,
                        ) by {
                            if j > 0 {
                                assert(nv[j] == tailv[j - 1]);
                            }
                        }
                    }
                    Some((v, q2))
                },
            }
        },
    }
}

/// The keystore snapshot round-trips: parsing the canonical serialization
/// of a well-formed store yields the store itself.
pub proof fn lemma_wallets_round_trip(s: Seq<(Seq<char>, WalletV)>)
    requires
        wallets_wf(s),
        wallets_encodable(s),
    ensures
        parse_wallets(canon_wallets(s)) == Some(s),
{
    assert forall|v: (Seq<char>, WalletV), r: Seq<u8>| s.contains(v) implies #[trigger]
        dec_wentry_fn()(canon_wentry_fn()(v) + r) == Some((v, canon_wentry_fn()(v).len() as int))
        by {
        let j = choose|j: int| 0 <= j < s.len() && s[j] == v;
        lemma_dec_wentry(v, r);
    }
    codec::lemma_dec_list(s, Seq::empty(), canon_wentry_fn(), dec_wentry_fn());
    assert(canon_wallets(s) =~= codec::canon_list(s, canon_wentry_fn()) + Seq::<u8>::empty());
}

proof fn lemma_dec_wentry(p: (Seq<char>, WalletV), rest: Seq<u8>)
    requires
        codec::str_ok(p.0),
        codec::bytes_ok(p.1.secret_key),
        codec::bytes_ok(p.1.public_key),
    ensures
        dec_wentry(canon_wentry(p) + rest) == Some((p, canon_wentry(p).len() as int)),
{
    let s = canon_wentry(p) + rest;
    let c2 = codec::canon_bytes(p.1.secret_key);
    let c3 = codec::canon_bytes(p.1.public_key);
    assert(s =~= codec::canon_str(p.0) + (c2 + (c3 + rest)));
    codec::lemma_dec_str(p.0, c2 + (c3 + rest));
    vstd::utf8::is_ascii_chars_encode_utf8(p.0);
    codec::lemma_canon_u64_len(p.0.len() as u64);
    let p1 = codec::canon_str(p.0).len() as int;
    assert(s.subrange(p1, s.len() as int) =~= c2 + (c3 + rest));
    codec::lemma_dec_bytes(p.1.secret_key, c3 + rest);
    codec::lemma_canon_u64_len(p.1.secret_key.len() as u64);
    let p2 = c2.len() as int;
    assert(s.subrange(p1 + p2, s.len() as int) =~= c3 + rest);
    codec::lemma_dec_bytes(p.1.public_key, rest);
    codec::lemma_canon_u64_len(p.1.public_key.len() as u64);
}

} // verus!
