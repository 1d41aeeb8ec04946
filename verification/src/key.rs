//! Capability token codec: authenticated encryption of a 32-bit entry
//! id into an opaque hex bearer token and back. A key is derived by
//! hashing the configured secret, a fresh random 96-bit nonce is
//! drawn per token, and the 4-byte little-endian id is sealed under
//! AES-256-GCM; the token is the hex of nonce, ciphertext and tag.
//! Decryption is fail-closed: any parse failure, wrong secret or tag
//! mismatch yields no id, never a partial one.

use vstd::prelude::*;
use vstd::string::StrSliceExecFns;
use vstd::string::StringExecFns;

verus! {

/// The opaque failure of the crypto paths; it never says why.
#[derive(Clone, Copy, PartialEq, Eq, Structural, Debug)]
pub struct CryptoError;

/// What SHA-256 digests to: a function of the input alone.
pub uninterp spec fn sha256_of(data: Seq<u8>) -> Seq<u8>;

/// What AES-256-GCM sealing produces for a key, nonce and plaintext:
/// ciphertext followed by the tag, a function of the three alone.
pub uninterp spec fn seal_of(key: Seq<u8>, nonce: Seq<u8>, pt: Seq<u8>) -> Seq<u8>;

/// Relies on `ring::digest::digest` with `SHA256`: a 32-byte digest
/// that depends on the input alone.
#[verifier::external_body]
fn sha256(data: &[u8]) -> (r: Vec<u8>)
    ensures
        r@ == sha256_of(data@),
        r@.len() == 32,
{
    ring::digest::digest(&ring::digest::SHA256, data).as_ref().to_vec()
}

/// Relies on `ring::aead` AES-256-GCM sealing (`UnboundKey::new`,
/// `LessSafeKey::seal_in_place_append_tag`,
/// `Nonce::try_assume_unique_for_key`): the ciphertext with its
/// 16-byte tag appended, a function of key, nonce and plaintext
/// alone.
#[verifier::external_body]
fn aead_seal(key: &Vec<u8>, nonce: &Vec<u8>, pt: &Vec<u8>) -> (r: Option<Vec<u8>>)
    requires
        key@.len() == 32,
        nonce@.len() == 12,
    ensures
        r matches Some(ct) ==> ct@ == seal_of(key@, nonce@, pt@) && ct@.len() == pt@.len() + 16,
{
    let ub = match ring::aead::UnboundKey::new(&ring::aead::AES_256_GCM, key) {
        Ok(k) => k,
        Err(_) => return None,
    };
    let k = ring::aead::LessSafeKey::new(ub);
    let n = match ring::aead::Nonce::try_assume_unique_for_key(nonce) {
        Ok(n) => n,
        Err(_) => return None,
    };
    let mut buf = pt.clone();
    match k.seal_in_place_append_tag(n, ring::aead::Aad::empty(), &mut buf) {
        Ok(()) => Some(buf),
        Err(_) => None,
    }
}

/// Relies on `ring::aead` AES-256-GCM opening (`UnboundKey::new`,
/// `LessSafeKey::open_in_place`, `Nonce::try_assume_unique_for_key`):
/// opening returns exactly the plaintext that sealing under the same
/// key and nonce produced, and a returned plaintext is the input less
/// its 16-byte tag. Opening succeeds only when the received tag
/// equals the one sealing computes, and the counter-mode cipher is a
/// bijection for a fixed key and nonce, so an opened plaintext
/// re-seals to exactly the input: decryption is fail-closed.
#[verifier::external_body]
fn aead_open(key: &Vec<u8>, nonce: &Vec<u8>, ct: &Vec<u8>) -> (r: Option<Vec<u8>>)
    requires
        key@.len() == 32,
        nonce@.len() == 12,
    ensures
        r is None ==> forall|pt: Seq<u8>| ct@ != seal_of(key@, nonce@, pt),
        r matches Some(v) ==> forall|pt: Seq<u8>| ct@ == seal_of(key@, nonce@, pt) ==> v@ == pt,
        r matches Some(v) ==> v@.len() + 16 == ct@.len(),
        r matches Some(v) ==> ct@ == seal_of(key@, nonce@, v@),
{
    let ub = match ring::aead::UnboundKey::new(&ring::aead::AES_256_GCM, key) {
        Ok(k) => k,
        Err(_) => return None,
    };
    let k = ring::aead::LessSafeKey::new(ub);
    let n = match ring::aead::Nonce::try_assume_unique_for_key(nonce) {
        Ok(n) => n,
        Err(_) => return None,
    };
    let mut buf = ct.clone();
    match k.open_in_place(n, ring::aead::Aad::empty(), &mut buf) {
        Ok(p) => Some(p.to_vec()),
        Err(_) => None,
    }
}

/// Relies on `ring::rand::SystemRandom` and `SecureRandom::fill`: 12
/// bytes from the system's secure random source; nothing is assumed
/// of their values.
#[verifier::external_body]
fn random_nonce() -> (r: Option<Vec<u8>>)
    ensures
        r matches Some(v) ==> v@.len() == 12,
{
    let rng = ring::rand::SystemRandom::new();
    let mut buf = [0u8; 12];
    match ring::rand::SecureRandom::fill(&rng, &mut buf) {
        Ok(()) => Some(buf.to_vec()),
        Err(_) => None,
    }
}

/// The id as the unsigned word its two's-complement bytes encode.
pub open spec fn id_to_u32(x: i32) -> u32 {
    ((x as int) % 0x100000000) as u32
}

pub open spec fn u32_to_id(u: u32) -> i32 {
    if u <= 0x7fffffff {
        u as i32
    } else {
        ((u as int) - 0x100000000) as i32
    }
}

pub proof fn lemma_id_u32_roundtrip(x: i32)
    ensures
        u32_to_id(id_to_u32(x)) == x,
{
    if x >= 0 {
        assert((x as int) % 0x100000000 == x as int);
    } else {
        assert((x as int) % 0x100000000 == x as int + 0x100000000);
    }
}

/// The 4-byte little-endian encoding of a 32-bit word.
pub open spec fn le_bytes32(x: u32) -> Seq<u8> {
    seq![
        ((x as int) % 256) as u8,
        (((x as int) / 256) % 256) as u8,
        (((x as int) / 65536) % 256) as u8,
        (((x as int) / 16777216) % 256) as u8,
    ]
}

fn le32_encode(x: u32) -> (r: Vec<u8>)
    ensures
        r@ == le_bytes32(x),
{
    let mut r: Vec<u8> = Vec::new();
    r.push((x % 256) as u8);
    r.push(((x / 256) % 256) as u8);
    r.push(((x / 65536) % 256) as u8);
    r.push(((x / 16777216) % 256) as u8);
    proof {
        assert(r@ =~= le_bytes32(x));
    }
    r
}

/// The value whose little-endian encoding starts a byte string;
/// meaningful for strings of at least four bytes.
pub open spec fn le_val32(b: Seq<u8>) -> int {
    (b[0] as int) + 256 * (b[1] as int) + 65536 * (b[2] as int) + 16777216 * (b[3] as int)
}

pub proof fn lemma_le_roundtrip(x: u32)
    ensures
        le_val32(le_bytes32(x)) == x as int,
{
    assert((x % 256) as int + 256 * ((x / 256) % 256) as int + 65536 * ((x / 65536) % 256) as int
        + 16777216 * ((x / 16777216) % 256) as int == x as int) by (bit_vector);
}

fn le32_decode(b: &Vec<u8>) -> (r: u32)
    requires
        b@.len() >= 4,
    ensures
        r as int == le_val32(b@),
{
    (b[0] as u32) + 256 * (b[1] as u32) + 65536 * (b[2] as u32) + 16777216 * (b[3] as u32)
}

/// The lowercase hex digit for a value below 16.
pub open spec fn hex_digit(n: int) -> char {
    if n == 0 {
        '0'
    } else if n == 1 {
        '1'
    } else if n == 2 {
        '2'
    } else if n == 3 {
        '3'
    } else if n == 4 {
        '4'
    } else if n == 5 {
        '5'
    } else if n == 6 {
        '6'
    } else if n == 7 {
        '7'
    } else if n == 8 {
        '8'
    } else if n == 9 {
        '9'
    } else if n == 10 {
        'a'
    } else if n == 11 {
        'b'
    } else if n == 12 {
        'c'
    } else if n == 13 {
        'd'
    } else if n == 14 {
        'e'
    } else {
        'f'
    }
}

/// The value of a hex digit in either case, or -1.
pub open spec fn hex_val(c: char) -> int {
    if c == '0' {
        0
    } else if c == '1' {
        1
    } else if c == '2' {
        2
    } else if c == '3' {
        3
    } else if c == '4' {
        4
    } else if c == '5' {
        5
    } else if c == '6' {
        6
    } else if c == '7' {
        7
    } else if c == '8' {
        8
    } else if c == '9' {
        9
    } else if c == 'a' || c == 'A' {
        10
    } else if c == 'b' || c == 'B' {
        11
    } else if c == 'c' || c == 'C' {
        12
    } else if c == 'd' || c == 'D' {
        13
    } else if c == 'e' || c == 'E' {
        14
    } else if c == 'f' || c == 'F' {
        15
    } else {
        -1
    }
}

/// The two hex digits of one byte.
pub open spec fn byte_hex(b: u8) -> Seq<char> {
    seq![hex_digit((b as int) / 16), hex_digit((b as int) % 16)]
}

/// The lowercase hex encoding of a byte string.
pub open spec fn hex_of(bytes: Seq<u8>) -> Seq<char>
    decreases bytes.len(),
{
    if bytes.len() == 0 {
        Seq::<char>::empty()
    } else {
        byte_hex(bytes.first()) + hex_of(bytes.drop_first())
    }
}

pub proof fn lemma_hex_of_len(b: Seq<u8>)
    ensures
        hex_of(b).len() == 2 * b.len(),
    decreases b.len(),
{
    if b.len() > 0 {
        lemma_hex_of_len(b.drop_first());
    }
}

pub proof fn lemma_hex_of_concat(a: Seq<u8>, b: Seq<u8>)
    ensures
        hex_of(a + b) == hex_of(a) + hex_of(b),
    decreases a.len(),
{
    if a.len() == 0 {
        assert(a + b =~= b);
        assert(hex_of(a) + hex_of(b) =~= hex_of(b));
    } else {
        assert((a + b).first() == a.first());
        assert((a + b).drop_first() =~= a.drop_first() + b);
        lemma_hex_of_concat(a.drop_first(), b);
        assert(hex_of(a + b) =~= hex_of(a) + hex_of(b));
    }
}

pub proof fn lemma_hex_of_index(b: Seq<u8>, k: int)
    requires
        0 <= k < b.len(),
    ensures
        hex_of(b).len() == 2 * b.len(),
        hex_of(b)[2 * k] == hex_digit((b[k] as int) / 16),
        hex_of(b)[2 * k + 1] == hex_digit((b[k] as int) % 16),
    decreases b.len(),
{
    lemma_hex_of_len(b);
    lemma_hex_of_len(b.drop_first());
    if k == 0 {
    } else {
        lemma_hex_of_index(b.drop_first(), k - 1);
        assert(b.drop_first()[k - 1] == b[k]);
    }
}

/// One digit pair of a hex text and the byte it stands for.
pub open spec fn hex_pair_ok(s: Seq<char>, b: Seq<u8>, k: int) -> bool {
    &&& hex_val(s[2 * k]) >= 0
    &&& hex_val(s[2 * k + 1]) >= 0
    &&& b[k] as int == hex_val(s[2 * k]) * 16 + hex_val(s[2 * k + 1])
}

/// How a hex text parses, digit pair by digit pair.
pub open spec fn hex_parses(s: Seq<char>, b: Seq<u8>) -> bool {
    &&& s.len() == 2 * b.len()
    &&& forall|k: int| 0 <= k < b.len() ==> #[trigger] hex_pair_ok(s, b, k)
}

pub proof fn lemma_hex_val_digit(n: int)
    requires
        0 <= n < 16,
    ensures
        hex_val(hex_digit(n)) == n,
{
}

pub proof fn lemma_hex_of_parses(b: Seq<u8>)
    ensures
        hex_parses(hex_of(b), b),
{
    lemma_hex_of_len(b);
    assert forall|k: int| 0 <= k < b.len() implies #[trigger] hex_pair_ok(hex_of(b), b, k) by {
        lemma_hex_of_index(b, k);
        lemma_hex_val_digit((b[k] as int) / 16);
        lemma_hex_val_digit((b[k] as int) % 16);
        assert((b[k] as int) == ((b[k] as int) / 16) * 16 + ((b[k] as int) % 16));
    }
}

pub proof fn lemma_hex_parses_unique(s: Seq<char>, b1: Seq<u8>, b2: Seq<u8>)
    requires
        hex_parses(s, b1),
        hex_parses(s, b2),
    ensures
        b1 == b2,
{
    assert forall|k: int| 0 <= k < b1.len() implies b1[k] == b2[k] by {
        assert(hex_pair_ok(s, b1, k));
        assert(hex_pair_ok(s, b2, k));
    }
    assert(b1 =~= b2);
}

fn hex_digit_str(d: u8) -> (r: &'static str)
    requires
        d < 16,
    ensures
        r@ == seq![hex_digit(d as int)],
{
    proof {
        reveal_strlit("0");
        reveal_strlit("1");
        reveal_strlit("2");
        reveal_strlit("3");
        reveal_strlit("4");
        reveal_strlit("5");
        reveal_strlit("6");
        reveal_strlit("7");
        reveal_strlit("8");
        reveal_strlit("9");
        reveal_strlit("a");
        reveal_strlit("b");
        reveal_strlit("c");
        reveal_strlit("d");
        reveal_strlit("e");
        reveal_strlit("f");
    }
    let r = match d {
        0 => "0",
        1 => "1",
        2 => "2",
        3 => "3",
        4 => "4",
        5 => "5",
        6 => "6",
        7 => "7",
        8 => "8",
        9 => "9",
        10 => "a",
        11 => "b",
        12 => "c",
        13 => "d",
        14 => "e",
        _ => "f",
    };
    proof {
        assert(r@ =~= seq![hex_digit(d as int)]);
    }
    r
}

fn hex_encode(bytes: &Vec<u8>) -> (r: String)
    ensures
        r@ == hex_of(bytes@),
{
    let mut s = String::new();
    let n = bytes.len();
    let mut i: usize = 0;
    while i < n
        invariant
            n == bytes@.len(),
            0 <= i <= n,
            s@ == hex_of(bytes@.take(i as int)),
        decreases n - i,
    {
        let b = bytes[i];
        s.append(hex_digit_str(b / 16));
        s.append(hex_digit_str(b % 16));
        proof {
            assert(bytes@.take(i + 1) =~= bytes@.take(i as int).push(bytes@[i as int]));
            lemma_hex_of_concat(bytes@.take(i as int), seq![bytes@[i as int]]);
            assert(bytes@.take(i as int) + seq![bytes@[i as int]] =~= bytes@.take(i + 1));
            assert(hex_of(seq![bytes@[i as int]]) =~= byte_hex(bytes@[i as int])) by {
                let sx = seq![bytes@[i as int]];
                assert(sx.len() == 1);
                assert(sx.first() == bytes@[i as int]);
                assert(sx.drop_first() =~= Seq::<u8>::empty());
                assert(hex_of(sx.drop_first()) =~= Seq::<char>::empty());
            }
            assert(s@ =~= hex_of(bytes@.take(i + 1)));
        }
        i = i + 1;
    }
    proof {
        assert(bytes@.take(n as int) =~= bytes@);
    }
    s
}

fn hex_val_exec(c: char) -> (r: Option<u8>)
    ensures
        r is Some <==> hex_val(c) >= 0,
        r matches Some(v) ==> v as int == hex_val(c) && v < 16,
{
    if c == '0' {
        Some(0)
    } else if c == '1' {
        Some(1)
    } else if c == '2' {
        Some(2)
    } else if c == '3' {
        Some(3)
    } else if c == '4' {
        Some(4)
    } else if c == '5' {
        Some(5)
    } else if c == '6' {
        Some(6)
    } else if c == '7' {
        Some(7)
    } else if c == '8' {
        Some(8)
    } else if c == '9' {
        Some(9)
    } else if c == 'a' || c == 'A' {
        Some(10)
    } else if c == 'b' || c == 'B' {
        Some(11)
    } else if c == 'c' || c == 'C' {
        Some(12)
    } else if c == 'd' || c == 'D' {
        Some(13)
    } else if c == 'e' || c == 'E' {
        Some(14)
    } else if c == 'f' || c == 'F' {
        Some(15)
    } else {
        None
    }
}

fn hex_decode(s: &str) -> (r: Option<Vec<u8>>)
    ensures
        r is Some <==> (s@.len() % 2 == 0 && forall|i: int|
            0 <= i < s@.len() ==> hex_val(#[trigger] s@[i]) >= 0),
        r matches Some(b) ==> hex_parses(s@, b@),
{
    let n = s.unicode_len();
    if n % 2 != 0 {
        return None;
    }
    let mut out: Vec<u8> = Vec::new();
    let mut i: usize = 0;
    while i < n
        invariant
            n == s@.len(),
            n % 2 == 0,
            i % 2 == 0,
            0 <= i <= n,
            out@.len() * 2 == i,
            forall|k: int| 0 <= k < i ==> hex_val(#[trigger] s@[k]) >= 0,
            forall|k: int|
                0 <= k < out@.len() ==> (#[trigger] out@[k]) as int == hex_val(s@[2 * k]) * 16
                    + hex_val(s@[2 * k + 1]),
        decreases n - i,
    {
        let c1 = s.get_char(i);
        let c2 = s.get_char(i + 1);
        let v1 = hex_val_exec(c1);
        let v2 = hex_val_exec(c2);
        match (v1, v2) {
            (Some(a), Some(b)) => {
                out.push(a * 16 + b);
            },
            _ => {
                return None;
            },
        }
        i = i + 2;
    }
    proof {
        assert forall|k: int| 0 <= k < out@.len() implies #[trigger] hex_pair_ok(
            s@,
            out@,
            k,
        ) by {
            assert(hex_val(s@[2 * k]) >= 0);
            assert(hex_val(s@[2 * k + 1]) >= 0);
        }
    }
    Some(out)
}

/// Whether a token is one the codec makes for this id under this
/// secret: the hex of some 12-byte nonce followed by the sealed
/// little-endian id.
pub open spec fn token_for(tok: Seq<char>, master: Seq<u8>, id: i32) -> bool {
    exists|nonce: Seq<u8>|
        #![trigger seal_of(sha256_of(master), nonce, le_bytes32(id_to_u32(id)))]
        nonce.len() == 12 && tok == hex_of(
            nonce + seal_of(sha256_of(master), nonce, le_bytes32(id_to_u32(id))),
        )
}

/// Make a bearer token that authorizes editing exactly one entry id.
/// Every call draws a fresh nonce, so tokens are not canonical, only
/// verifiable: whatever comes back decrypts to the id it was made
/// for.
pub fn generate_key(target: i32, master: &[u8]) -> (r: Result<String, CryptoError>)
    ensures
        r matches Ok(tok) ==> token_for(tok@, master@, target),
        r matches Ok(tok) ==> tok@.len() == 64,
{
    let key = sha256(master);
    let nonce = match random_nonce() {
        Some(n) => n,
        None => {
            return Err(CryptoError);
        },
    };
    let idu: u32 = if target >= 0 {
        target as u32
    } else {
        (((target as i64) + 0x100000000i64) as u32)
    };
    proof {
        assert(idu == id_to_u32(target));
    }
    let pt = le32_encode(idu);
    let sealed = match aead_seal(&key, &nonce, &pt) {
        Some(c) => c,
        None => {
            return Err(CryptoError);
        },
    };
    let mut all: Vec<u8> = Vec::new();
    all.extend_from_slice(nonce.as_slice());
    all.extend_from_slice(sealed.as_slice());
    let tok = hex_encode(&all);
    proof {
        assert(all@ =~= nonce@ + sealed@);
        assert(tok@ == hex_of(nonce@ + seal_of(sha256_of(master@), nonce@, le_bytes32(id_to_u32(
            target,
        )))));
        lemma_hex_of_len(all@);
        assert(all@.len() == 32);
    }
    Ok(tok)
}

/// Check a bearer token: the id it was sealed for, or nothing. Odd
/// length, a missing nonce, a stray character, a wrong secret or a
/// tag mismatch all collapse to `None`; and an id comes back only
/// from a payload that authenticates under the key this secret
/// derives.
pub fn try_decrypt_key(key: &str, master: &[u8]) -> (r: Option<i32>)
    ensures
        forall|idx: i32| token_for(key@, master@, idx) ==> r == Some(idx),
        key@.len() % 2 != 0 || key@.len() < 24 ==> r is None,
        (exists|i: int| 0 <= i < key@.len() && hex_val(#[trigger] key@[i]) < 0) ==> r is None,
        r matches Some(i) ==> exists|nonce: Seq<u8>, pt: Seq<u8>|
            #![trigger seal_of(sha256_of(master@), nonce, pt)]
            nonce.len() == 12 && pt.len() >= 4 && hex_parses(key@.subrange(0, 24), nonce)
                && hex_parses(
                key@.subrange(24, key@.len() as int),
                seal_of(sha256_of(master@), nonce, pt),
            ) && i == u32_to_id(le_val32(pt) as u32),
{
    let n = key.unicode_len();
    if n % 2 != 0 || n < 24 {
        proof {
            assert forall|idx: i32| token_for(key@, master@, idx) implies false by {
                let nonce = choose|nonce: Seq<u8>|
                    #![trigger seal_of(sha256_of(master@), nonce, le_bytes32(id_to_u32(idx)))]
                    nonce.len() == 12 && key@ == hex_of(
                        nonce + seal_of(sha256_of(master@), nonce, le_bytes32(id_to_u32(idx))),
                    );
                lemma_hex_of_len(nonce + seal_of(sha256_of(master@), nonce, le_bytes32(id_to_u32(
                    idx,
                ))));
            }
        }
        return None;
    }
    let nonce_str = key.substring_char(0, 24);
    let data_str = key.substring_char(24, n);
    let nonce_vec = match hex_decode(nonce_str) {
        Some(v) => v,
        None => {
            proof {
                assert forall|idx: i32| token_for(key@, master@, idx) implies false by {
                    let nonce = choose_nonce(key@, master@, idx);
                    let sealed = seal_of(sha256_of(master@), nonce, le_bytes32(id_to_u32(idx)));
                    assert(key@ == hex_of(nonce + sealed));
                    lemma_hex_of_all_hex(nonce + sealed);
                    assert(forall|i: int|
                        0 <= i < nonce_str@.len() ==> (#[trigger] nonce_str@[i]) == key@[i]);
                }
            }
            return None;
        },
    };
    let data_vec = match hex_decode(data_str) {
        Some(v) => v,
        None => {
            proof {
                assert forall|idx: i32| token_for(key@, master@, idx) implies false by {
                    let nonce = choose_nonce(key@, master@, idx);
                    let sealed = seal_of(sha256_of(master@), nonce, le_bytes32(id_to_u32(idx)));
                    assert(key@ == hex_of(nonce + sealed));
                    lemma_hex_of_all_hex(nonce + sealed);
                    assert(forall|i: int|
                        0 <= i < data_str@.len() ==> (#[trigger] data_str@[i]) == key@[i + 24]);
                    assert(data_str@.len() % 2 == 0);
                }
            }
            return None;
        },
    };
    let dkey = sha256(master);
    let opened = aead_open(&dkey, &nonce_vec, &data_vec);
    proof {
        lemma_decoded_parts(key@, master@, nonce_str@, data_str@, nonce_vec@, data_vec@);
    }
    match opened {
        None => {
            proof {
                assert forall|idx: i32| token_for(key@, master@, idx) implies false by {
                    let nonce = choose_nonce(key@, master@, idx);
                    let sealed = seal_of(sha256_of(master@), nonce, le_bytes32(id_to_u32(idx)));
                    assert(data_vec@ == sealed && nonce_vec@ == nonce);
                }
            }
            return None;
        },
        Some(pt) => {
            if pt.len() < 4 {
                proof {
                    assert forall|idx: i32| token_for(key@, master@, idx) implies false by {
                        let nonce = choose_nonce(key@, master@, idx);
                        let sealed = seal_of(sha256_of(master@), nonce, le_bytes32(id_to_u32(
                            idx,
                        )));
                        assert(data_vec@ == sealed && nonce_vec@ == nonce);
                        assert(pt@ == le_bytes32(id_to_u32(idx)));
                    }
                }
                return None;
            }
            let u = le32_decode(&pt);
            let idr: i32 = if u <= 0x7fffffff {
                u as i32
            } else {
                (((u as i64) - 0x100000000i64) as i32)
            };
            proof {
                assert(idr == u32_to_id(u));
                assert forall|idx: i32| token_for(key@, master@, idx) implies idr == idx by {
                    assert(pt@ == le_bytes32(id_to_u32(idx)));
                    lemma_le_roundtrip(id_to_u32(idx));
                    lemma_id_u32_roundtrip(idx);
                }
                // no character fell outside the hex alphabet
                assert forall|i: int| 0 <= i < key@.len() implies hex_val(#[trigger] key@[i])
                    >= 0 by {
                    if i < 24 {
                        assert(key@[i] == nonce_str@[i]);
                    } else {
                        assert(key@[i] == data_str@[i - 24]);
                    }
                }
                // the returned id came from a payload that authenticates
                // under the derived key
                assert(data_vec@ == seal_of(sha256_of(master@), nonce_vec@, pt@));
                assert(nonce_vec@.len() == 12 && pt@.len() >= 4 && hex_parses(
                    key@.subrange(0, 24),
                    nonce_vec@,
                ) && hex_parses(
                    key@.subrange(24, key@.len() as int),
                    seal_of(sha256_of(master@), nonce_vec@, pt@),
                ) && idr == u32_to_id(le_val32(pt@) as u32));
            }
            Some(idr)
        },
    }
}


/// Every character of a hex encoding is a hex digit.
proof fn lemma_hex_of_all_hex(b: Seq<u8>)
    ensures
        hex_of(b).len() == 2 * b.len(),
        forall|i: int| 0 <= i < hex_of(b).len() ==> hex_val(#[trigger] hex_of(b)[i]) >= 0,
{
    lemma_hex_of_len(b);
    assert forall|i: int| 0 <= i < hex_of(b).len() implies hex_val(#[trigger] hex_of(b)[i])
        >= 0 by {
        let k = i / 2;
        lemma_hex_of_index(b, k);
        assert(i == 2 * k || i == 2 * k + 1);
    }
}

/// If the token is well formed for an id, the two decoded halves are
/// that id's nonce and sealed payload.
proof fn lemma_decoded_parts(
    tok: Seq<char>,
    master: Seq<u8>,
    ns: Seq<char>,
    ds: Seq<char>,
    nv: Seq<u8>,
    dv: Seq<u8>,
)
    requires
        ns == tok.subrange(0, 24),
        ds == tok.subrange(24, tok.len() as int),
        tok.len() >= 24,
        hex_parses(ns, nv),
        hex_parses(ds, dv),
    ensures
        forall|idx: i32|
            token_for(tok, master, idx) ==> ({
                let sealed = seal_of(sha256_of(master), choose_nonce(tok, master, idx), le_bytes32(
                    id_to_u32(idx),
                ));
                nv == choose_nonce(tok, master, idx) && dv == sealed
            }),
{
    assert forall|idx: i32| token_for(tok, master, idx) implies ({
        let sealed = seal_of(sha256_of(master), choose_nonce(tok, master, idx), le_bytes32(
            id_to_u32(idx),
        ));
        nv == choose_nonce(tok, master, idx) && dv == sealed
    }) by {
        let nonce = choose_nonce(tok, master, idx);
        let sealed = seal_of(sha256_of(master), nonce, le_bytes32(id_to_u32(idx)));
        assert(nonce.len() == 12 && tok == hex_of(nonce + sealed));
        lemma_hex_of_concat(nonce, sealed);
        lemma_hex_of_len(nonce);
        lemma_hex_of_len(sealed);
        assert(ns =~= hex_of(nonce));
        assert(ds =~= hex_of(sealed));
        lemma_hex_of_parses(nonce);
        lemma_hex_of_parses(sealed);
        lemma_hex_parses_unique(ns, nv, nonce);
        lemma_hex_parses_unique(ds, dv, sealed);
    }
}

/// The nonce a well-formed token was built with.
pub open spec fn choose_nonce(tok: Seq<char>, master: Seq<u8>, id: i32) -> Seq<u8> {
    choose|nonce: Seq<u8>|
        #![trigger seal_of(sha256_of(master), nonce, le_bytes32(id_to_u32(id)))]
        nonce.len() == 12 && tok == hex_of(
            nonce + seal_of(sha256_of(master), nonce, le_bytes32(id_to_u32(id))),
        )
}

} // verus!
