//! Password-based key derivation and one-shot authenticated encryption of
//! the store, bound to the envelope header.
use vstd::prelude::*;
use crate::header::{
    aad_bytes, EnvelopeFileHeader, CURRENT_VERSION, NONCE_SIZE, SALT_SIZE,
};
use chacha20poly1305::aead::{Aead, KeyInit, Payload};
use rand::RngCore;
use crate::text::push_char;

verus! {

/// Length of the derived key: 256 bits for XChaCha20-Poly1305.
pub const KEY_LEN: usize = 32;

/// Length of the authentication tag appended to every ciphertext.
pub const TAG_LEN: usize = 16;

/// The longest message XChaCha20-Poly1305 encrypts here: 2^32 - 2 blocks of
/// 64 bytes, since ChaCha20 counts blocks in 32 bits and spends its first
/// block on the Poly1305 key.
pub const MAX_MESSAGE_LEN: u64 = 274877906816;

/// The Argon2id cost parameters.
#[derive(Debug, Clone, Copy, PartialEq, Eq)]
pub struct KdfCost {
    /// Memory cost in KiB.
    pub memory_kib: u32,
    /// Number of passes.
    pub time_cost: u32,
    /// Number of lanes.
    pub parallelism: u32,
}

impl KdfCost {
    /// Parameters that Argon2 accepts.
    pub open spec fn valid(&self) -> bool {
        &&& 1 <= self.parallelism <= 0xFF_FFFF
        &&& self.memory_kib >= 8 * self.parallelism
        &&& self.time_cost >= 1
    }

    /// The cost used for every store: 256 MiB, three passes, eight lanes.
    pub fn production() -> (c: KdfCost)
        ensures
            c == (KdfCost { memory_kib: 262144, time_cost: 3, parallelism: 8 }),
            c.valid(),
    {
        KdfCost { memory_kib: 262144, time_cost: 3, parallelism: 8 }
    }

    /// A cheap cost for exercising the code paths: 8 MiB, one pass, one lane.
    pub fn reduced() -> (c: KdfCost)
        ensures
            c == (KdfCost { memory_kib: 8192, time_cost: 1, parallelism: 1 }),
            c.valid(),
    {
        KdfCost { memory_kib: 8192, time_cost: 1, parallelism: 1 }
    }
}

#[derive(Debug, Clone, Copy, PartialEq, Eq)]
pub enum CryptoError {
    KeyDerivationFailed,
    EncryptionFailed,
    DecryptionFailed,
    UnsupportedVersion(u8),
}

/// One decimal digit.
pub open spec fn digit_char(d: nat) -> char {
    if d == 0 { '0' } else if d == 1 { '1' } else if d == 2 { '2' } else if d == 3 { '3' }
    else if d == 4 { '4' } else if d == 5 { '5' } else if d == 6 { '6' } else if d == 7 { '7' }
    else if d == 8 { '8' } else { '9' }
}

/// The decimal digits of `n`.
pub open spec fn decimal(n: nat) -> Seq<char>
    decreases n,
{
    if n < 10 {
        seq![digit_char(n)]
    } else {
        decimal(n / 10) + seq![digit_char(n % 10)]
    }
}

fn digit(d: u8) -> (c: char)
    requires
        d < 10,
    ensures
        c == digit_char(d as nat),
{
    if d == 0 { '0' } else if d == 1 { '1' } else if d == 2 { '2' } else if d == 3 { '3' }
    else if d == 4 { '4' } else if d == 5 { '5' } else if d == 6 { '6' } else if d == 7 { '7' }
    else if d == 8 { '8' } else { '9' }
}

/// Appends the decimal digits of `n`.
fn push_decimal(out: &mut String, n: u8)
    ensures
        final(out)@ == old(out)@ + decimal(n as nat),
{
    let ghost start = out@;
    if n >= 100 {
        push_char(out, digit(n / 100));
        push_char(out, digit((n / 10) % 10));
        push_char(out, digit(n % 10));
        let t = n / 10;
        assert((n / 10) / 10 == n / 100) by (bit_vector);
        assert(t >= 10 && t / 10 < 10);
        assert(decimal(t as nat) == decimal((t / 10) as nat) + seq![digit_char((t % 10) as nat)]);
        assert(decimal(n as nat) == decimal(t as nat) + seq![digit_char((n % 10) as nat)]);
    } else if n >= 10 {
        push_char(out, digit(n / 10));
        push_char(out, digit(n % 10));
        assert(decimal(n as nat) == decimal((n / 10) as nat) + seq![digit_char((n % 10) as nat)]);
    } else {
        push_char(out, digit(n));
    }
    assert(out@ =~= start + decimal(n as nat));
}

/// The message of each error.
pub open spec fn error_text(e: CryptoError) -> Seq<char> {
    match e {
        CryptoError::KeyDerivationFailed => "key derivation failed"@,
        CryptoError::EncryptionFailed => "encryption failed"@,
        CryptoError::DecryptionFailed => "decryption failed - wrong password?"@,
        CryptoError::UnsupportedVersion(v) => "unsupported envelope version: "@ + decimal(v as nat) + " (expected 1)"@,
    }
}

impl CryptoError {
    /// A message for the user; wrong password and tampering read the same.
    pub fn to_string(&self) -> (r: String)
        ensures
            r@ == error_text(*self),
    {
        let mut out = String::new();
        match self {
            CryptoError::KeyDerivationFailed => out.append("key derivation failed"),
            CryptoError::EncryptionFailed => out.append("encryption failed"),
            CryptoError::DecryptionFailed => out.append("decryption failed - wrong password?"),
            CryptoError::UnsupportedVersion(v) => {
                out.append("unsupported envelope version: ");
                push_decimal(&mut out, *v);
                out.append(" (expected 1)");
            },
        }
        assert(out@ =~= error_text(*self));
        out
    }
}

/// The Argon2id (version 0x13) output for a password, a salt and a cost.
pub uninterp spec fn argon2id_key(password: Seq<u8>, salt: Seq<u8>, memory_kib: u32, time_cost: u32, parallelism: u32) -> Seq<u8>;

/// The XChaCha20-Poly1305 ciphertext (with its tag) of `msg`.
pub uninterp spec fn xchacha_seal(key: Seq<u8>, nonce: Seq<u8>, aad: Seq<u8>, msg: Seq<u8>) -> Seq<u8>;

/// What XChaCha20-Poly1305 decryption of `ct` yields: the plaintext, or
/// nothing when authentication fails.
pub uninterp spec fn xchacha_open(key: Seq<u8>, nonce: Seq<u8>, aad: Seq<u8>, ct: Seq<u8>) -> Option<Seq<u8>>;

/// Relies on argon2's `Params::new` and `Argon2::hash_password_into`
/// (Argon2id, version 0x13): both succeed for valid parameters, a salt of 8 to
/// 2^32 - 1 bytes and a password of at most 2^32 - 1 bytes, and the output
/// depends on the inputs alone.
#[verifier::external_body]
fn argon2id_hash(password: &[u8], salt: &[u8], cost: &KdfCost) -> (r: Option<Vec<u8>>)
    requires
        cost.valid(),
        password@.len() <= 0xFFFF_FFFF,
        8 <= salt@.len() <= 0xFFFF_FFFF,
    ensures
        r is Some,
        r matches Some(k) ==> k@ == argon2id_key(password@, salt@, cost.memory_kib, cost.time_cost, cost.parallelism),
        r matches Some(k) ==> k@.len() == KEY_LEN,
{
    let params = argon2::Params::new(cost.memory_kib, cost.time_cost, cost.parallelism, Some(KEY_LEN)).ok()?;
    let argon2 = argon2::Argon2::new(argon2::Algorithm::Argon2id, argon2::Version::V0x13, params);
    let mut key = vec![0u8; KEY_LEN];
    argon2.hash_password_into(password, salt, &mut key).ok()?;
    Some(key)
}

/// Relies on chacha20poly1305's `XChaCha20Poly1305::encrypt`: up to
/// `MAX_MESSAGE_LEN` bytes it succeeds (above, the keystream would run out),
/// appends a 16-byte tag, and its output decrypts under the same key, nonce
/// and associated data to the message.
#[verifier::external_body]
fn xchacha_encrypt(key: &[u8], nonce: &[u8; NONCE_SIZE], aad: &[u8], msg: &[u8]) -> (r: Option<Vec<u8>>)
    requires
        key@.len() == KEY_LEN,
        msg@.len() <= MAX_MESSAGE_LEN,
    ensures
        r is Some,
        r matches Some(c) ==> c@ == xchacha_seal(key@, nonce@, aad@, msg@),
        r matches Some(c) ==> c@.len() == msg@.len() + TAG_LEN,
        r matches Some(c) ==> xchacha_open(key@, nonce@, aad@, c@) == Some(msg@),
{
    let aead = chacha20poly1305::XChaCha20Poly1305::new(chacha20poly1305::Key::from_slice(key));
    aead.encrypt(chacha20poly1305::XNonce::from_slice(nonce), Payload { msg, aad }).ok()
}

/// Relies on chacha20poly1305's `XChaCha20Poly1305::decrypt`: the plaintext
/// when the tag authenticates, nothing otherwise (always nothing below 16 bytes).
#[verifier::external_body]
fn xchacha_decrypt(key: &[u8], nonce: &[u8; NONCE_SIZE], aad: &[u8], ct: &[u8]) -> (r: Option<Vec<u8>>)
    requires
        key@.len() == KEY_LEN,
    ensures
        match r {
            Some(p) => xchacha_open(key@, nonce@, aad@, ct@) == Some(p@),
            None => xchacha_open(key@, nonce@, aad@, ct@) is None,
        },
        ct@.len() < TAG_LEN ==> r is None,
{
    let aead = chacha20poly1305::XChaCha20Poly1305::new(chacha20poly1305::Key::from_slice(key));
    aead.decrypt(chacha20poly1305::XNonce::from_slice(nonce), Payload { msg: ct, aad }).ok()
}

/// Relies on zeroize's `Zeroize` for `Vec<u8>`: the bytes are overwritten
/// with zeros and the vector is left empty.
#[verifier::external_body]
fn wipe(bytes: &mut Vec<u8>)
    ensures
        final(bytes)@.len() == 0,
{
    zeroize::Zeroize::zeroize(bytes);
}

/// Relies on rand's thread generator (`rand::rng().fill_bytes`): random
/// bytes, of which nothing is promised.
#[verifier::external_body]
fn random_bytes<const N: usize>() -> (r: [u8; N]) {
    let mut bytes = [0u8; N];
    rand::rng().fill_bytes(&mut bytes);
    bytes
}

/// Whether Argon2 accepts a password under a cost (the salt is always 16 bytes).
pub open spec fn kdf_accepts(password: Seq<u8>, cost: KdfCost) -> bool {
    cost.valid() && password.len() <= 0xFFFF_FFFF
}

/// The key derived for a header's salt.
pub open spec fn header_key(password: Seq<u8>, h: EnvelopeFileHeader, cost: KdfCost) -> Seq<u8> {
    argon2id_key(password, h.argon_salt@, cost.memory_kib, cost.time_cost, cost.parallelism)
}

/// What decrypting `ct` under header `h` yields: the version is checked
/// first, then the key is derived, then the ciphertext is authenticated.
pub open spec fn decrypt_outcome(ct: Seq<u8>, h: EnvelopeFileHeader, password: Seq<u8>, cost: KdfCost) -> Result<Seq<u8>, CryptoError> {
    if h.version != CURRENT_VERSION {
        Err(CryptoError::UnsupportedVersion(h.version))
    } else if !kdf_accepts(password, cost) {
        Err(CryptoError::KeyDerivationFailed)
    } else {
        match xchacha_open(header_key(password, h, cost), h.xchacha_nonce@, aad_bytes(h), ct) {
            Some(p) => Ok(p),
            None => Err(CryptoError::DecryptionFailed),
        }
    }
}

/// A byte result seen through its view.
pub open spec fn bytes_result(r: Result<Vec<u8>, CryptoError>) -> Result<Seq<u8>, CryptoError> {
    match r {
        Ok(v) => Ok(v@),
        Err(e) => Err(e),
    }
}

/// Derives a 32-byte key from a password and a salt with Argon2id.
pub fn derive_key(password: &[u8], salt: &[u8], cost: &KdfCost) -> (r: Result<Vec<u8>, CryptoError>)
    ensures
        (kdf_accepts(password@, *cost) && 8 <= salt@.len() <= 0xFFFF_FFFF) == r is Ok,
        r is Err ==> r == Err::<Vec<u8>, CryptoError>(CryptoError::KeyDerivationFailed),
        r matches Ok(k) ==> k@ == argon2id_key(password@, salt@, cost.memory_kib, cost.time_cost, cost.parallelism)
            && k@.len() == KEY_LEN,
{
    if !(1 <= cost.parallelism && cost.parallelism <= 0xFF_FFFF && cost.time_cost >= 1) {
        return Err(CryptoError::KeyDerivationFailed);
    }
    if (cost.memory_kib as u64) < 8 * (cost.parallelism as u64) {
        return Err(CryptoError::KeyDerivationFailed);
    }
    if password.len() as u64 > 0xFFFF_FFFF || salt.len() < 8 || salt.len() as u64 > 0xFFFF_FFFF {
        return Err(CryptoError::KeyDerivationFailed);
    }
    match argon2id_hash(password, salt, cost) {
        Some(k) => Ok(k),
        None => Err(CryptoError::KeyDerivationFailed),
    }
}

/// Encrypts `blob` under `password` with the given cost, `salt` and `nonce`,
/// which are written into the header first; magic and version stay. A
/// message longer than `MAX_MESSAGE_LEN` is refused.
pub fn seal(
    header: &mut EnvelopeFileHeader,
    salt: [u8; SALT_SIZE],
    nonce: [u8; NONCE_SIZE],
    blob: &[u8],
    password: &[u8],
    cost: &KdfCost,
) -> (r: Result<Vec<u8>, CryptoError>)
    ensures
        final(header).argon_salt == salt,
        final(header).xchacha_nonce == nonce,
        final(header).magic_number == old(header).magic_number,
        final(header).version == old(header).version,
        !kdf_accepts(password@, *cost) ==> r == Err::<Vec<u8>, CryptoError>(CryptoError::KeyDerivationFailed),
        kdf_accepts(password@, *cost) ==> (r is Ok <==> blob@.len() <= MAX_MESSAGE_LEN),
        r is Err ==> r == Err::<Vec<u8>, CryptoError>(CryptoError::KeyDerivationFailed)
            || r == Err::<Vec<u8>, CryptoError>(CryptoError::EncryptionFailed),
        r matches Ok(c) ==> c@ == xchacha_seal(header_key(password@, *final(header), *cost),
            final(header).xchacha_nonce@, aad_bytes(*final(header)), blob@)
            && c@.len() == blob@.len() + TAG_LEN,
        r matches Ok(c) ==> (old(header).version == CURRENT_VERSION
            ==> decrypt_outcome(c@, *final(header), password@, *cost) == Ok::<Seq<u8>, CryptoError>(blob@)),
{
    header.argon_salt = salt;
    header.xchacha_nonce = nonce;
    let mut key = match derive_key(password, &salt, cost) {
        Ok(k) => k,
        Err(e) => return Err(e),
    };
    if blob.len() as u64 > MAX_MESSAGE_LEN {
        wipe(&mut key);
        return Err(CryptoError::EncryptionFailed);
    }
    let aad = header.associated_data();
    let sealed = xchacha_encrypt(key.as_slice(), &nonce, &aad, blob);
    wipe(&mut key);
    match sealed {
        Some(c) => Ok(c),
        None => Err(CryptoError::EncryptionFailed),
    }
}

/// Encrypts `blob` under `password` with the given cost. Fresh random salt
/// and nonce are drawn and written into the header; magic and version stay.
pub fn encrypt_with(header: &mut EnvelopeFileHeader, blob: &[u8], password: &[u8], cost: &KdfCost) -> (r: Result<Vec<u8>, CryptoError>)
    ensures
        final(header).magic_number == old(header).magic_number,
        final(header).version == old(header).version,
        !kdf_accepts(password@, *cost) ==> r == Err::<Vec<u8>, CryptoError>(CryptoError::KeyDerivationFailed),
        kdf_accepts(password@, *cost) ==> (r is Ok <==> blob@.len() <= MAX_MESSAGE_LEN),
        r is Err ==> r == Err::<Vec<u8>, CryptoError>(CryptoError::KeyDerivationFailed)
            || r == Err::<Vec<u8>, CryptoError>(CryptoError::EncryptionFailed),
        r matches Ok(c) ==> c@ == xchacha_seal(header_key(password@, *final(header), *cost),
            final(header).xchacha_nonce@, aad_bytes(*final(header)), blob@)
            && c@.len() == blob@.len() + TAG_LEN,
        r matches Ok(c) ==> (old(header).version == CURRENT_VERSION
            ==> decrypt_outcome(c@, *final(header), password@, *cost) == Ok::<Seq<u8>, CryptoError>(blob@)),
{
    let salt = random_bytes::<SALT_SIZE>();
    let nonce = random_bytes::<NONCE_SIZE>();
    seal(header, salt, nonce, blob, password, cost)
}

/// Decrypts `blob` under `header` and `password` with the given cost. An
/// unsupported version is refused before any key is derived; a wrong
/// password and a tampered ciphertext or header give the same error.
pub fn decrypt_with(blob: &[u8], header: &EnvelopeFileHeader, password: &[u8], cost: &KdfCost) -> (r: Result<Vec<u8>, CryptoError>)
    ensures
        bytes_result(r) == decrypt_outcome(blob@, *header, password@, *cost),
{
    if header.version != CURRENT_VERSION {
        return Err(CryptoError::UnsupportedVersion(header.version));
    }
    let salt = header.argon_salt;
    let mut key = match derive_key(password, &salt, cost) {
        Ok(k) => k,
        Err(e) => return Err(e),
    };
    let aad = header.associated_data();
    let nonce = header.xchacha_nonce;
    let opened = xchacha_decrypt(key.as_slice(), &nonce, &aad, blob);
    wipe(&mut key);
    match opened {
        Some(p) => Ok(p),
        None => Err(CryptoError::DecryptionFailed),
    }
}

/// `encrypt_with` at the production cost.
pub fn encrypt(header: &mut EnvelopeFileHeader, blob: &[u8], password: &[u8]) -> (r: Result<Vec<u8>, CryptoError>)
    ensures
        final(header).magic_number == old(header).magic_number,
        final(header).version == old(header).version,
        password@.len() <= 0xFFFF_FFFF ==> (r is Ok <==> blob@.len() <= MAX_MESSAGE_LEN),
        password@.len() > 0xFFFF_FFFF ==> r == Err::<Vec<u8>, CryptoError>(CryptoError::KeyDerivationFailed),
        r is Err ==> r == Err::<Vec<u8>, CryptoError>(CryptoError::KeyDerivationFailed)
            || r == Err::<Vec<u8>, CryptoError>(CryptoError::EncryptionFailed),
        r matches Ok(c) ==> c@ == xchacha_seal(header_key(password@, *final(header), KdfCost::production_spec()),
            final(header).xchacha_nonce@, aad_bytes(*final(header)), blob@),
        r matches Ok(c) ==> c@.len() == blob@.len() + TAG_LEN,
        r matches Ok(c) ==> (old(header).version == CURRENT_VERSION
            ==> decrypt_outcome(c@, *final(header), password@, KdfCost::production_spec()) == Ok::<Seq<u8>, CryptoError>(blob@)),
{
    let cost = KdfCost::production();
    encrypt_with(header, blob, password, &cost)
}

/// `decrypt_with` at the production cost.
pub fn decrypt(blob: &[u8], header: &EnvelopeFileHeader, password: &[u8]) -> (r: Result<Vec<u8>, CryptoError>)
    ensures
        bytes_result(r) == decrypt_outcome(blob@, *header, password@, KdfCost::production_spec()),
{
    let cost = KdfCost::production();
    decrypt_with(blob, header, password, &cost)
}

impl KdfCost {
    /// The production cost as a value.
    pub open spec fn production_spec() -> KdfCost {
        KdfCost { memory_kib: 262144, time_cost: 3, parallelism: 8 }
    }
}

} // verus!
