//! Hashing of leaf values and of digest pairs.
//!
//! Every digest in the tree is the Keccak-256 hash of some string,
//! rendered as a lowercase hexadecimal string. A leaf digest hashes the
//! raw address; a parent digest hashes the concatenation of its two
//! children's hexadecimal digests, left first. The Keccak-256 call is
//! trusted; the hexadecimal rendering is verified here.

use vstd::prelude::*;
use sha3::Digest;

verus! {

/// The Keccak-256 digest (32 raw bytes) of the UTF-8 bytes of `s`. The
/// digest is a pure function of its input; its value is only named here,
/// not axiomatized.
pub uninterp spec fn keccak_bytes(s: Seq<char>) -> Seq<u8>;

/// The lowercase hexadecimal digit for a value below sixteen.
pub open spec fn hex_digit(n: u8) -> char {
    if n == 0 { '0' }
    else if n == 1 { '1' }
    else if n == 2 { '2' }
    else if n == 3 { '3' }
    else if n == 4 { '4' }
    else if n == 5 { '5' }
    else if n == 6 { '6' }
    else if n == 7 { '7' }
    else if n == 8 { '8' }
    else if n == 9 { '9' }
    else if n == 10 { 'a' }
    else if n == 11 { 'b' }
    else if n == 12 { 'c' }
    else if n == 13 { 'd' }
    else if n == 14 { 'e' }
    else { 'f' }
}

/// The lowercase hexadecimal rendering of a byte sequence: two digits
/// per byte, high nibble first.
pub open spec fn hex_of(bytes: Seq<u8>) -> Seq<char> {
    Seq::new(
        bytes.len() * 2,
        |i: int| if i % 2 == 0 { hex_digit(bytes[i / 2] / 16) } else { hex_digit(bytes[i / 2] % 16) },
    )
}

/// The canonical digest string of `s`: its Keccak-256 hash in lowercase
/// hexadecimal.
pub open spec fn keccak_hex(s: Seq<char>) -> Seq<char> {
    hex_of(keccak_bytes(s))
}

/// The digest of a parent node: the hash of the two children's
/// hexadecimal digests concatenated in left-then-right order.
pub open spec fn pair_hash(left: Seq<char>, right: Seq<char>) -> Seq<char> {
    keccak_hex(left + right)
}

/// Relies on sha3::Keccak256 through the digest traits: the digest is a
/// function of the input bytes alone and is exactly 32 bytes long.
#[verifier::external_body]
fn keccak256(s: &str) -> (r: Vec<u8>)
    ensures
        r@ == keccak_bytes(s@),
        r@.len() == 32,
{
    sha3::Keccak256::digest(s.as_bytes()).as_slice().to_vec()
}

/// The one-character string holding the lowercase hexadecimal digit of a
/// value below sixteen.
fn hex_digit_str(n: u8) -> (r: &'static str)
    requires
        n < 16,
    ensures
        r@ == seq![hex_digit(n)],
{
    proof {
        reveal_strlit("0");
        reveal_strlit("1");
        reveal_strlit("2");
        reveal_strlit("3");
        reveal_strlit("4");
        reveal_strlit("5");
        reveal_strlit("6");
        reveal_strlit("7");
        reveal_strlit("8");
        reveal_strlit("9");
        reveal_strlit("a");
        reveal_strlit("b");
        reveal_strlit("c");
        reveal_strlit("d");
        reveal_strlit("e");
        reveal_strlit("f");
    }
    let r: &'static str = match n {
        0 => "0",
        1 => "1",
        2 => "2",
        3 => "3",
        4 => "4",
        5 => "5",
        6 => "6",
        7 => "7",
        8 => "8",
        9 => "9",
        10 => "a",
        11 => "b",
        12 => "c",
        13 => "d",
        14 => "e",
        _ => "f",
    };
    proof {
        assert(r@ =~= seq![hex_digit(n)]);
    }
    r
}

/// The lowercase hexadecimal rendering of a byte sequence, two digits
/// per byte, high nibble first.
fn bytes_to_hex(bytes: &Vec<u8>) -> (r: String)
    ensures
        r@ == hex_of(bytes@),
{
    let mut out = String::new();
    let mut i: usize = 0;
    while i < bytes.len()
        invariant
            i <= bytes@.len(),
            out@ =~= hex_of(bytes@.take(i as int)),
        decreases bytes@.len() - i,
    {
        let b = bytes[i];
        out.append(hex_digit_str(b / 16));
        out.append(hex_digit_str(b % 16));
        i = i + 1;
        proof {
            assert(out@ =~= hex_of(bytes@.take(i as int)));
        }
    }
    proof {
        assert(bytes@.take(bytes@.len() as int) =~= bytes@);
    }
    out
}

/// The digest of one leaf value: the Keccak-256 hash of the address
/// itself, as a lowercase hexadecimal string.
pub fn leaf_hash(value: &str) -> (r: String)
    ensures
        r@ == keccak_hex(value@),
        r@.len() == 64,
{
    let digest = keccak256(value);
    bytes_to_hex(&digest)
}

/// The digest of a parent node, combining two child digests in
/// left-then-right order.
pub fn hash_pair(left: &str, right: &str) -> (r: String)
    ensures
        r@ == pair_hash(left@, right@),
        r@.len() == 64,
{
    let joined = String::from_str(left).concat(right);
    let digest = keccak256(joined.as_str());
    bytes_to_hex(&digest)
}

} // verus!
