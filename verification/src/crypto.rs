//! Hashing, secp256k1 ECDSA signatures and Ethereum addresses.
use vstd::prelude::*;
use crate::utils::{ascii_bytes, hex_digits, nibble_char, string_push};

verus! {

/// Public key address
pub type Address = [u8; 20];

/// Message signature: 64 bytes of `r` and `s` followed by `27 +` the recovery identifier
pub type Signature = [u8; 65];

/// Message digest
pub type Hash = [u8; 32];

/// secp256k1 secret key, as its 32-byte big-endian scalar
pub type SecretKey = [u8; 32];

/// secp256k1 public key, as its 65-byte uncompressed serialization
pub type PublicKey = [u8; 65];

// ---------------------------------------------------------------------------
// Outside primitives
// ---------------------------------------------------------------------------

/// The Keccak-256 digest of a byte string.
pub uninterp spec fn keccak256_spec(data: Seq<u8>) -> Seq<u8>;

/// Calls `tiny_keccak::keccak256`; the digest is named by [keccak256_spec], a function of the
/// input bytes alone.
#[verifier::external_body]
pub(crate) fn keccak256(data: &[u8]) -> (h: Hash)
    ensures
        h@ == keccak256_spec(data@),
{
    tiny_keccak::keccak256(data)
}

/// The uncompressed public key recovered from a 32-byte message digest, a 64-byte `r || s`
/// signature and a recovery identifier below 4, or `None` when recovery fails.
pub uninterp spec fn secp256k1_recover_spec(hash: Seq<u8>, signature: Seq<u8>, recovery: u8) -> Option<Seq<u8>>;

/// Calls `secp256k1::recover` (libsecp256k1), converting the digest, signature and recovery
/// identifier into its types and the recovered key into its 65-byte serialization. The result
/// is named by [secp256k1_recover_spec]; nothing more is claimed of it.
#[verifier::external_body]
fn secp256k1_recover(hash: &Hash, signature: &[u8], recovery: u8) -> (r: Option<PublicKey>)
    requires
        signature@.len() == 64,
        recovery < 4,
    ensures
        match r {
            Some(public) => secp256k1_recover_spec(hash@, signature@, recovery) == Some(public@),
            None => secp256k1_recover_spec(hash@, signature@, recovery) is None,
        },
{
    let message = secp256k1::Message::parse(hash);
    let signature = match secp256k1::Signature::parse_slice(signature) {
        Ok(signature) => signature,
        Err(_) => return None,
    };
    let recovery = match secp256k1::RecoveryId::parse(recovery) {
        Ok(recovery) => recovery,
        Err(_) => return None,
    };
    match secp256k1::recover(&message, &signature, &recovery) {
        Ok(public) => Some(public.serialize()),
        Err(_) => None,
    }
}

/// The uncompressed public key of a 32-byte secret key, or `None` when the bytes are not a
/// valid secret key (zero, or not below the group order).
pub uninterp spec fn secp256k1_public_key_spec(secret: Seq<u8>) -> Option<Seq<u8>>;

/// Calls `secp256k1::PublicKey::from_secret_key` (libsecp256k1) on the parsed secret key and
/// returns its 65-byte serialization; `None` when `secp256k1::SecretKey::parse` refuses the
/// bytes. The result is named by [secp256k1_public_key_spec].
#[verifier::external_body]
fn secp256k1_public_key(secret: &SecretKey) -> (r: Option<PublicKey>)
    ensures
        match r {
            Some(public) => secp256k1_public_key_spec(secret@) == Some(public@),
            None => secp256k1_public_key_spec(secret@) is None,
        },
{
    match secp256k1::SecretKey::parse(secret) {
        Ok(secret) => Some(secp256k1::PublicKey::from_secret_key(&secret).serialize()),
        Err(_) => None,
    }
}

/// The deterministic (RFC 6979) low-`s` signature `r || s` and recovery identifier of a
/// 32-byte digest under a 32-byte secret key, or `None` when the key bytes are invalid.
pub uninterp spec fn secp256k1_sign_spec(hash: Seq<u8>, secret: Seq<u8>) -> Option<(Seq<u8>, u8)>;

/// Calls `secp256k1::sign` (libsecp256k1) on the parsed secret key and returns the 64-byte
/// serialization of the signature with the recovery identifier. Claimed of it: the result is
/// named by [secp256k1_sign_spec]; it is `None` exactly when the key bytes are invalid (the
/// source loops until it finds a valid nonce); the recovery identifier is below 4 (two bits in
/// the source); and recovering with the signature gives back the key's public key, which is the
/// defining property of ECDSA public-key recovery.
#[verifier::external_body]
fn secp256k1_sign(hash: &Hash, secret: &SecretKey) -> (r: Option<([u8; 64], u8)>)
    ensures
        r is None <==> secp256k1_public_key_spec(secret@) is None,
        match r {
            Some((signature, recovery)) => {
                &&& secp256k1_sign_spec(hash@, secret@) == Some((signature@, recovery))
                &&& recovery < 4
                &&& secp256k1_recover_spec(hash@, signature@, recovery)
                    == secp256k1_public_key_spec(secret@)
            },
            None => secp256k1_sign_spec(hash@, secret@) is None,
        },
{
    match secp256k1::SecretKey::parse(secret) {
        Ok(secret) => {
            let (signature, recovery) = secp256k1::sign(&secp256k1::Message::parse(hash), &secret);
            Some((signature.serialize(), recovery.serialize()))
        },
        Err(_) => None,
    }
}

// ---------------------------------------------------------------------------
// Ethereum signed messages
// ---------------------------------------------------------------------------

/// The decimal digits of a natural number, as ASCII bytes.
pub open spec fn decimal(n: nat) -> Seq<u8>
    decreases n,
{
    if n < 10 {
        seq![(48 + n) as u8]
    } else {
        decimal(n / 10).push((48 + n % 10) as u8)
    }
}

/// `"\x19Ethereum Signed Message:\n"` as bytes.
pub open spec fn ethereum_prefix() -> Seq<u8> {
    seq![
        0x19u8, 69, 116, 104, 101, 114, 101, 117, 109, 32, 83, 105, 103, 110, 101, 100, 32, 77,
        101, 115, 115, 97, 103, 101, 58, 10,
    ]
}

/// The byte string that is hashed and signed for `message`: the Ethereum prefix, the decimal
/// length of the message, then the message.
pub open spec fn ethereum_message(message: Seq<u8>) -> Seq<u8> {
    ethereum_prefix() + decimal(message.len()) + message
}

fn push_decimal(out: &mut Vec<u8>, n: usize)
    ensures
        final(out)@ == old(out)@ + decimal(n as nat),
    decreases n,
{
    if n >= 10 {
        push_decimal(out, n / 10);
    }
    out.push((48 + n % 10) as u8);
    proof {
        if n >= 10 {
            assert(decimal(n as nat) == decimal((n / 10) as nat).push((48 + n % 10) as u8));
        }
        assert(final(out)@ =~= old(out)@ + decimal(n as nat));
    }
}

fn ethereum_message_bytes(message: &[u8]) -> (m: Vec<u8>)
    ensures
        m@ == ethereum_message(message@),
{
    let mut m = vec![
        0x19u8, 69, 116, 104, 101, 114, 101, 117, 109, 32, 83, 105, 103, 110, 101, 100, 32, 77,
        101, 115, 115, 97, 103, 101, 58, 10,
    ];
    assert(m@ =~= ethereum_prefix());
    push_decimal(&mut m, message.len());
    m.extend_from_slice(message);
    m
}

/// The address of an uncompressed public key: the last 20 bytes of the Keccak-256 digest of the
/// key without its leading format byte.
pub open spec fn address_spec(public: Seq<u8>) -> Seq<u8> {
    keccak256_spec(public.skip(1)).skip(12)
}

/// The recovery identifier named by a signature's last byte (`0..=3` or `27..=30`).
pub open spec fn recovery_id(v: u8) -> Option<u8> {
    if v <= 3 {
        Some(v)
    } else if 27 <= v <= 30 {
        Some((v - 27) as u8)
    } else {
        None
    }
}

/// The address that signed `message` with `signature`, or `None` when recovery fails.
pub open spec fn recover_spec(message: Seq<u8>, signature: Seq<u8>) -> Option<Seq<u8>> {
    if signature.len() != 65 {
        None
    } else {
        match recovery_id(signature[64]) {
            None => None,
            Some(recovery) => match secp256k1_recover_spec(
                keccak256_spec(ethereum_message(message)),
                signature.take(64),
                recovery,
            ) {
                Some(public) => Some(address_spec(public)),
                None => None,
            },
        }
    }
}

/// The signature of `message` under `secret`, or `None` when `secret` is not a valid key.
pub open spec fn sign_spec(message: Seq<u8>, secret: Seq<u8>) -> Option<Seq<u8>> {
    match secp256k1_sign_spec(keccak256_spec(ethereum_message(message)), secret) {
        Some((rs, recovery)) => Some(rs.push((27 + recovery) as u8)),
        None => None,
    }
}

/// Computes the address of a secp256k1 ECDSA public key.
pub fn address(public: &PublicKey) -> (a: Address)
    ensures
        a@ == address_spec(public@),
{
    let (_, rest) = public.as_slice().split_at(1);
    let digest = keccak256(rest);
    let mut a = [0u8; 20];
    let mut i: usize = 0;
    while i < 20
        invariant
            i <= 20,
            forall|j: int| 0 <= j < i ==> a@[j] == digest@[j + 12],
        decreases 20 - i,
    {
        a[i] = digest[12 + i];
        i = i + 1;
    }
    proof {
        assert(rest@ =~= public@.skip(1));
        assert(a@ =~= address_spec(public@));
    }
    a
}

/// Computes the public key of a secret key; fails when the bytes are not a valid secret key.
pub fn public_key(secret: &SecretKey) -> (r: Result<PublicKey, String>)
    ensures
        match r {
            Ok(public) => secp256k1_public_key_spec(secret@) == Some(public@),
            Err(_) => secp256k1_public_key_spec(secret@) is None,
        },
{
    match secp256k1_public_key(secret) {
        Some(public) => Ok(public),
        None => Err("invalid secret key".to_owned()),
    }
}

/// Recovers the address of the key that signed a message.
///
/// The signed bytes are the Ethereum prefix, the decimal length of `message` and `message`;
/// `signature` must be 65 bytes whose last byte is the recovery identifier (`0..=3` or
/// `27..=30`).
pub fn recover(message: &[u8], signature: &[u8]) -> (r: Result<Address, String>)
    ensures
        match r {
            Ok(a) => recover_spec(message@, signature@) == Some(a@),
            Err(_) => recover_spec(message@, signature@) is None,
        },
{
    let digest = keccak256(ethereum_message_bytes(message).as_slice());
    recover_digest(&digest, signature)
}

/// The address whose key signed the 32-byte `digest` with `signature`, or `None` when recovery
/// fails.
pub open spec fn recover_digest_spec(digest: Seq<u8>, signature: Seq<u8>) -> Option<Seq<u8>> {
    if signature.len() != 65 {
        None
    } else {
        match recovery_id(signature[64]) {
            None => None,
            Some(recovery) => match secp256k1_recover_spec(digest, signature.take(64), recovery) {
                Some(public) => Some(address_spec(public)),
                None => None,
            },
        }
    }
}

/// Recovers the address of the key that signed a 32-byte digest, as it is, with no prefix.
///
/// `signature` must be 65 bytes whose last byte is the recovery identifier (`0..=3` or
/// `27..=30`).
pub fn recover_digest(digest: &Hash, signature: &[u8]) -> (r: Result<Address, String>)
    ensures
        match r {
            Ok(a) => recover_digest_spec(digest@, signature@) == Some(a@),
            Err(_) => recover_digest_spec(digest@, signature@) is None,
        },
{
    if signature.len() != 65 {
        return Err("signature.len() != size_of::<Signature>()".to_owned());
    }
    let v = signature[64];
    let recovery: u8 = if v <= 3 {
        v
    } else if 27 <= v && v <= 30 {
        v - 27
    } else {
        return Err("invalid recovery identifier".to_owned());
    };
    let (rs, _) = signature.split_at(64);
    match secp256k1_recover(digest, rs, recovery) {
        Some(public) => {
            assert(rs@ =~= signature@.take(64));
            Ok(address(&public))
        },
        None => {
            assert(rs@ =~= signature@.take(64));
            Err("public key recovery failed".to_owned())
        },
    }
}

/// Signs a message with a secp256k1 ECDSA secret key.
///
/// The signature recovers (see [recover]) to the address of the key's public key.
pub fn sign(message: &[u8], secret: &SecretKey) -> (r: Result<Signature, String>)
    ensures
        match r {
            Ok(signature) => {
                &&& sign_spec(message@, secret@) == Some(signature@)
                &&& 27 <= signature@[64] <= 30
                &&& secp256k1_public_key_spec(secret@) matches Some(public)
                &&& recover_spec(message@, signature@) == Some(address_spec(public))
            },
            Err(_) => {
                &&& sign_spec(message@, secret@) is None
                &&& secp256k1_public_key_spec(secret@) is None
            },
        },
{
    let digest = keccak256(ethereum_message_bytes(message).as_slice());
    match secp256k1_sign(&digest, secret) {
        Some((rs, recovery)) => {
            let mut signature = [0u8; 65];
            let mut i: usize = 0;
            while i < 64
                invariant
                    i <= 64,
                    forall|j: int| 0 <= j < i ==> signature@[j] == rs@[j],
                decreases 64 - i,
            {
                signature[i] = rs[i];
                i = i + 1;
            }
            signature[64] = 27 + recovery;
            proof {
                assert(signature@ =~= rs@.push((27 + recovery) as u8));
                assert(signature@.take(64) =~= rs@);
                assert(recovery_id(signature@[64]) == Some(recovery));
            }
            Ok(signature)
        },
        None => Err("invalid secret key".to_owned()),
    }
}

// ---------------------------------------------------------------------------
// EIP 55
// ---------------------------------------------------------------------------

/// The uppercase hexadecimal digit for a nibble.
pub open spec fn nibble_upper_char(n: u8) -> char {
    if n == 10 { 'A' }
    else if n == 11 { 'B' }
    else if n == 12 { 'C' }
    else if n == 13 { 'D' }
    else if n == 14 { 'E' }
    else if n == 15 { 'F' }
    else { nibble_char(n) }
}

/// The nibble at position `j` of the hexadecimal digits of `a`.
pub open spec fn nibble_at(a: Seq<u8>, j: int) -> u8 {
    if j % 2 == 0 { (a[j / 2] / 16) as u8 } else { (a[j / 2] % 16) as u8 }
}

/// Whether EIP 55 capitalises digit `j`: the matching bit of the checksum digest is set.
pub open spec fn eip55_upper(checksum: Seq<u8>, j: int) -> bool {
    if j % 2 == 0 { checksum[j / 2] >= 128 } else { (checksum[j / 2] / 8) % 2 == 1 }
}

/// The EIP 55 representation of an address: `"0x"` and its 40 hexadecimal digits, each letter
/// capitalised when the matching bit of the Keccak-256 digest of the lowercase digits is set.
pub open spec fn eip55_spec(a: Seq<u8>) -> Seq<char> {
    let checksum = keccak256_spec(ascii_bytes(hex_digits(a)));
    seq!['0', 'x'] + Seq::new(
        2 * a.len(),
        |j: int|
            if eip55_upper(checksum, j) {
                nibble_upper_char(nibble_at(a, j))
            } else {
                nibble_char(nibble_at(a, j))
            },
    )
}

fn nibble_to_byte(n: u8) -> (b: u8)
    requires
        n < 16,
    ensures
        b == nibble_char(n) as u8,
{
    if n < 10 { 48 + n } else { 87 + n }
}

fn nibble_to_char_cased(n: u8, upper: bool) -> (c: char)
    requires
        n < 16,
    ensures
        c == (if upper { nibble_upper_char(n) } else { nibble_char(n) }),
{
    match n {
        0 => '0',
        1 => '1',
        2 => '2',
        3 => '3',
        4 => '4',
        5 => '5',
        6 => '6',
        7 => '7',
        8 => '8',
        9 => '9',
        10 => if upper { 'A' } else { 'a' },
        11 => if upper { 'B' } else { 'b' },
        12 => if upper { 'C' } else { 'c' },
        13 => if upper { 'D' } else { 'd' },
        14 => if upper { 'E' } else { 'e' },
        _ => if upper { 'F' } else { 'f' },
    }
}

proof fn lemma_hex_digits_index(a: Seq<u8>, j: int)
    requires
        0 <= j < 2 * a.len(),
    ensures
        hex_digits(a).len() == 2 * a.len(),
        hex_digits(a)[j] == nibble_char(nibble_at(a, j)),
    decreases a.len(),
{
    let prev = a.drop_last();
    if j < 2 * prev.len() {
        lemma_hex_digits_index(prev, j);
        assert(nibble_at(prev, j) == nibble_at(a, j));
    } else {
        if prev.len() > 0 {
            lemma_hex_digits_index(prev, 0);
        }
        assert(hex_digits(prev).len() == 2 * prev.len());
    }
}

/// Computes the EIP 55 representation of an address.
pub fn eip55(address: &Address) -> (s: String)
    ensures
        s@ == eip55_spec(address@),
{
    let mut digits: Vec<u8> = Vec::new();
    let mut i: usize = 0;
    while i < 20
        invariant
            i <= 20,
            digits@.len() == 2 * i,
            forall|j: int| 0 <= j < 2 * i ==> digits@[j] == nibble_char(nibble_at(address@, j)) as u8,
        decreases 20 - i,
    {
        digits.push(nibble_to_byte(address[i] / 16));
        digits.push(nibble_to_byte(address[i] % 16));
        i = i + 1;
    }
    proof {
        assert forall|j: int| 0 <= j < 40 implies digits@[j] == ascii_bytes(hex_digits(address@))[j] by {
            lemma_hex_digits_index(address@, j);
        }
        lemma_hex_digits_index(address@, 0);
        assert(digits@ =~= ascii_bytes(hex_digits(address@)));
    }
    let checksum = keccak256(digits.as_slice());
    let mut s = String::new();
    string_push(&mut s, '0');
    string_push(&mut s, 'x');
    let ghost expected = eip55_spec(address@);
    let mut i: usize = 0;
    while i < 20
        invariant
            i <= 20,
            checksum@ == keccak256_spec(ascii_bytes(hex_digits(address@))),
            expected == eip55_spec(address@),
            s@ == expected.take(2 + 2 * i),
        decreases 20 - i,
    {
        let byte = checksum[i];
        let c0 = nibble_to_char_cased(address[i] / 16, byte >= 128);
        let c1 = nibble_to_char_cased(address[i] % 16, (byte / 8) % 2 == 1);
        string_push(&mut s, c0);
        string_push(&mut s, c1);
        proof {
            assert(expected[2 + 2 * i] == c0);
            assert(expected[3 + 2 * i] == c1);
            assert(s@ =~= expected.take(2 + 2 * (i + 1)));
        }
        i = i + 1;
    }
    proof {
        assert(expected.take(42) =~= expected);
    }
    s
}

} // verus!
