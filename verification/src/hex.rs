//! Lower-case hexadecimal rendering of byte strings, and the numeric value of
//! byte and hex-digit strings read as big-endian unsigned integers.

use vstd::prelude::*;
use vstd::arithmetic::power::pow;

verus! {

/// The lower-case hex digit for a value below 16.
pub open spec fn hex_digit_char(d: nat) -> char {
    if d == 0 { '0' } else if d == 1 { '1' } else if d == 2 { '2' } else if d == 3 { '3' }
    else if d == 4 { '4' } else if d == 5 { '5' } else if d == 6 { '6' } else if d == 7 { '7' }
    else if d == 8 { '8' } else if d == 9 { '9' } else if d == 10 { 'a' } else if d == 11 { 'b' }
    else if d == 12 { 'c' } else if d == 13 { 'd' } else if d == 14 { 'e' } else { 'f' }
}

/// The numeric value of a lower-case hex digit (0 for anything else).
pub open spec fn hex_char_val(c: char) -> nat {
    if c == '0' { 0 } else if c == '1' { 1 } else if c == '2' { 2 } else if c == '3' { 3 }
    else if c == '4' { 4 } else if c == '5' { 5 } else if c == '6' { 6 } else if c == '7' { 7 }
    else if c == '8' { 8 } else if c == '9' { 9 } else if c == 'a' { 10 } else if c == 'b' { 11 }
    else if c == 'c' { 12 } else if c == 'd' { 13 } else if c == 'e' { 14 } else if c == 'f' { 15 }
    else { 0 }
}

/// The lower-case hex rendering of a byte string: two digits per byte.
pub open spec fn hex_of(bytes: Seq<u8>) -> Seq<char> {
    Seq::new(
        2 * bytes.len(),
        |i: int| if i % 2 == 0 {
            hex_digit_char((bytes[i / 2] / 16) as nat)
        } else {
            hex_digit_char((bytes[i / 2] % 16) as nat)
        },
    )
}

/// A byte string read as a big-endian unsigned integer.
pub open spec fn bytes_val(b: Seq<u8>) -> nat
    decreases b.len(),
{
    if b.len() == 0 {
        0
    } else {
        bytes_val(b.drop_last()) * 256 + b.last() as nat
    }
}

/// A hex string read as a big-endian unsigned integer.
pub open spec fn hex_str_val(s: Seq<char>) -> nat
    decreases s.len(),
{
    if s.len() == 0 {
        0
    } else {
        hex_str_val(s.drop_last()) * 16 + hex_char_val(s.last()) as nat
    }
}

pub proof fn lemma_hex_digit_val(d: nat)
    requires
        d < 16,
    ensures
        hex_char_val(hex_digit_char(d)) == d,
{
}

/// Hex digits are ASCII.
pub proof fn lemma_hex_of_ascii(bytes: Seq<u8>)
    ensures
        vstd::utf8::is_ascii_chars(hex_of(bytes)),
{
    assert forall|i: int| 0 <= i < hex_of(bytes).len() implies
        '\0' <= #[trigger] hex_of(bytes)[i] <= '\u{7f}' by {
        let d = if i % 2 == 0 { (bytes[i / 2] / 16) as nat } else { (bytes[i / 2] % 16) as nat };
        assert(hex_of(bytes)[i] == hex_digit_char(d));
    }
}

/// The hex rendering of a byte string denotes the same integer as the bytes.
pub proof fn lemma_hex_of_val(bytes: Seq<u8>)
    ensures
        hex_str_val(hex_of(bytes)) == bytes_val(bytes),
    decreases bytes.len(),
{
    if bytes.len() == 0 {
        assert(hex_of(bytes) =~= Seq::<char>::empty());
    } else {
        let front = bytes.drop_last();
        let x = bytes.last();
        let hi = (x / 16) as nat;
        let lo = (x % 16) as nat;
        lemma_hex_of_val(front);
        assert(hex_of(bytes) =~= hex_of(front) + seq![hex_digit_char(hi), hex_digit_char(lo)]);
        let h = hex_of(bytes);
        let h1 = h.drop_last();
        assert(h1.drop_last() =~= hex_of(front));
        assert(h.last() == hex_digit_char(lo));
        assert(h1.last() == hex_digit_char(hi));
        lemma_hex_digit_val(hi);
        lemma_hex_digit_val(lo);
        let v = hex_str_val(hex_of(front)) as int;
        assert(hex_str_val(h) == hex_str_val(h1) * 16 + lo);
        assert(hex_str_val(h1) == v * 16 + hi);
        assert((v * 16 + hi) * 16 + lo == v * 256 + (hi * 16 + lo)) by (nonlinear_arith);
        vstd::arithmetic::div_mod::lemma_fundamental_div_mod(x as int, 16);
        assert(hi * 16 + lo == x);
    }
}

/// A byte string of length n denotes an integer below 256^n.
pub proof fn lemma_bytes_val_bound(b: Seq<u8>)
    ensures
        bytes_val(b) < pow(256, b.len() as nat),
    decreases b.len(),
{
    reveal(vstd::arithmetic::power::pow);
    vstd::arithmetic::power::lemma_pow_positive(256, b.len() as nat);
    if b.len() == 0 {
    } else {
        lemma_bytes_val_bound(b.drop_last());
        let f = bytes_val(b.drop_last()) as int;
        let p = pow(256, (b.len() - 1) as nat);
        assert(pow(256, b.len() as nat) == 256 * p);
        assert(f <= p - 1);
        assert(f * 256 <= (p - 1) * 256) by (nonlinear_arith)
            requires f <= p - 1;
        assert(bytes_val(b) <= (p - 1) * 256 + 255);
    }
}

/// Concatenation splits the value: the front bytes are shifted by 256^|back|.
pub proof fn lemma_bytes_val_concat(a: Seq<u8>, c: Seq<u8>)
    ensures
        bytes_val(a + c) == bytes_val(a) * pow(256, c.len() as nat) + bytes_val(c),
    decreases c.len(),
{
    reveal(vstd::arithmetic::power::pow);
    if c.len() == 0 {
        assert(a + c =~= a);
        assert(pow(256, 0) == 1);
    } else {
        let c0 = c.drop_last();
        lemma_bytes_val_concat(a, c0);
        assert((a + c).drop_last() =~= a + c0);
        assert(bytes_val(a + c) == (bytes_val(a) * pow(256, c0.len() as nat) + bytes_val(c0)) * 256
            + c.last());
        let va = bytes_val(a) as int;
        let p0 = pow(256, c0.len() as nat);
        assert(pow(256, c.len() as nat) == 256 * p0);
        assert((va * p0 + bytes_val(c0)) * 256 + c.last()
            == va * (256 * p0) + (bytes_val(c0) * 256 + c.last())) by (nonlinear_arith);
    }
}

/// One lower-case hex digit as a one-character string slice.
fn hex_digit_str(d: u8) -> (r: &'static str)
    requires
        d < 16,
    ensures
        r@.len() == 1,
        r@[0] == hex_digit_char(d as nat),
{
    proof {
        reveal_strlit("0"); reveal_strlit("1"); reveal_strlit("2"); reveal_strlit("3");
        reveal_strlit("4"); reveal_strlit("5"); reveal_strlit("6"); reveal_strlit("7");
        reveal_strlit("8"); reveal_strlit("9"); reveal_strlit("a"); reveal_strlit("b");
        reveal_strlit("c"); reveal_strlit("d"); reveal_strlit("e"); reveal_strlit("f");
    }
    match d {
        0 => "0", 1 => "1", 2 => "2", 3 => "3",
        4 => "4", 5 => "5", 6 => "6", 7 => "7",
        8 => "8", 9 => "9", 10 => "a", 11 => "b",
        12 => "c", 13 => "d", 14 => "e", _ => "f",
    }
}

/// Render a byte string as lower-case hex.
pub fn bytes_to_hex(bytes: &[u8]) -> (r: String)
    ensures
        r@ == hex_of(bytes@),
{
    let mut s = String::new();
    let n = bytes.len();
    let mut i: usize = 0;
    while i < n
        invariant
            n == bytes@.len(),
            i <= n,
            s@ == hex_of(bytes@.take(i as int)),
        decreases n - i,
    {
        let b = bytes[i];
        let hi = b / 16;
        let lo = b % 16;
        s.append(hex_digit_str(hi));
        s.append(hex_digit_str(lo));
        proof {
            assert(hex_of(bytes@.take(i + 1)) =~= hex_of(bytes@.take(i as int))
                + seq![hex_digit_char((b / 16) as nat), hex_digit_char((b % 16) as nat)]);
        }
        i = i + 1;
    }
    proof {
        assert(bytes@.take(n as int) =~= bytes@);
    }
    s
}

} // verus!
