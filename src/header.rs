//! The fixed-width header that precedes the ciphertext of a locked store.
use vstd::prelude::*;

verus! {

pub const MAGIC_NUMBER_LEN: usize = 12;

pub const VERSION_LEN: usize = 1;

pub const SALT_SIZE: usize = 16;

pub const NONCE_SIZE: usize = 24;

/// magic(12) || version(1) || salt(16) || nonce(24)
pub const HEADER_SIZE: usize = 53;

/// Four bytes of SHA-256("envelope"), then "ENVELOPE" in ASCII.
pub const MAGIC_NUMBER: [u8; MAGIC_NUMBER_LEN] = [
    0x4c, 0x50, 0x3c, 0xa6, 0x45, 0x4e, 0x56, 0x45, 0x4c, 0x4f, 0x50, 0x45,
];

pub const CURRENT_VERSION: u8 = 1;

/// The magic constant as a sequence.
pub open spec fn magic_seq() -> Seq<u8> {
    seq![0x4cu8, 0x50u8, 0x3cu8, 0xa6u8, 0x45u8, 0x4eu8, 0x56u8, 0x45u8, 0x4cu8, 0x4fu8, 0x50u8, 0x45u8]
}

/// Header of an encrypted envelope file. Salt and nonce are wiped when a
/// header is dropped.
#[derive(Debug, Clone, PartialEq, Eq)]
pub struct EnvelopeFileHeader {
    pub magic_number: [u8; MAGIC_NUMBER_LEN],
    pub version: u8,
    pub argon_salt: [u8; SALT_SIZE],
    pub xchacha_nonce: [u8; NONCE_SIZE],
}

/// Relies on zeroize's `Zeroize` for byte arrays: salt and nonce are
/// overwritten with zeros before the memory is released.
impl Drop for EnvelopeFileHeader {
    #[verifier::external_body]
    fn drop(&mut self)
        opens_invariants none
        no_unwind
    {
        zeroize::Zeroize::zeroize(&mut self.argon_salt);
        zeroize::Zeroize::zeroize(&mut self.xchacha_nonce);
    }
}

#[derive(Debug, Clone, Copy, PartialEq, Eq)]
pub enum FileHeaderError {
    WrongHeaderSize,
    WrongMagicNumber,
}

/// The serialized form of a header: its fields in order, without padding.
pub open spec fn header_bytes(h: EnvelopeFileHeader) -> Seq<u8> {
    h.magic_number@ + seq![h.version] + h.argon_salt@ + h.xchacha_nonce@
}

/// The associated data bound to the ciphertext: magic and version.
pub open spec fn aad_bytes(h: EnvelopeFileHeader) -> Seq<u8> {
    h.magic_number@ + seq![h.version]
}

/// A header that names this format.
pub open spec fn has_magic(h: EnvelopeFileHeader) -> bool {
    h.magic_number@ == magic_seq()
}

/// What parsing `b` yields: the size is checked first, then the magic, and
/// an accepted buffer is exactly the serialization of the header returned.
pub open spec fn parse_outcome(b: Seq<u8>, r: Result<EnvelopeFileHeader, FileHeaderError>) -> bool {
    if b.len() != HEADER_SIZE {
        r == Err::<EnvelopeFileHeader, FileHeaderError>(FileHeaderError::WrongHeaderSize)
    } else if b.take(MAGIC_NUMBER_LEN as int) != magic_seq() {
        r == Err::<EnvelopeFileHeader, FileHeaderError>(FileHeaderError::WrongMagicNumber)
    } else {
        r matches Ok(h) && header_bytes(h) == b
    }
}

fn magic_number() -> (r: [u8; MAGIC_NUMBER_LEN])
    ensures
        r@ == magic_seq(),
{
    let r = MAGIC_NUMBER;
    assert(r@ =~= magic_seq());
    r
}

impl EnvelopeFileHeader {
    /// A header with the magic, the current version and zeroed salt and nonce.
    pub fn default() -> (h: EnvelopeFileHeader)
        ensures
            has_magic(h),
            h.version == CURRENT_VERSION,
            h.argon_salt@ == Seq::new(SALT_SIZE as nat, |i: int| 0u8),
            h.xchacha_nonce@ == Seq::new(NONCE_SIZE as nat, |i: int| 0u8),
    {
        let h = EnvelopeFileHeader {
            magic_number: magic_number(),
            version: CURRENT_VERSION,
            argon_salt: [0u8; SALT_SIZE],
            xchacha_nonce: [0u8; NONCE_SIZE],
        };
        assert(h.argon_salt@ =~= Seq::new(SALT_SIZE as nat, |i: int| 0u8));
        assert(h.xchacha_nonce@ =~= Seq::new(NONCE_SIZE as nat, |i: int| 0u8));
        h
    }

    /// Parses a header; the size is checked before the magic.
    pub fn try_from(buffer: &[u8]) -> (r: Result<EnvelopeFileHeader, FileHeaderError>)
        ensures
            parse_outcome(buffer@, r),
    {
        if buffer.len() != HEADER_SIZE {
            return Err(FileHeaderError::WrongHeaderSize);
        }
        let expected = magic_number();
        let mut magic_number = [0u8; MAGIC_NUMBER_LEN];
        let mut i: usize = 0;
        while i < MAGIC_NUMBER_LEN
            invariant
                buffer@.len() == HEADER_SIZE,
                expected@ == magic_seq(),
                0 <= i <= MAGIC_NUMBER_LEN,
                forall|j: int| 0 <= j < i ==> magic_number@[j] == buffer@[j],
                forall|j: int| 0 <= j < i ==> buffer@[j] == magic_seq()[j],
            decreases MAGIC_NUMBER_LEN - i,
        {
            if buffer[i] != expected[i] {
                assert(buffer@.take(MAGIC_NUMBER_LEN as int)[i as int] != magic_seq()[i as int]);
                return Err(FileHeaderError::WrongMagicNumber);
            }
            magic_number[i] = buffer[i];
            i = i + 1;
        }
        assert(magic_number@ =~= buffer@.take(MAGIC_NUMBER_LEN as int));
        assert(buffer@.take(MAGIC_NUMBER_LEN as int) =~= magic_seq());
        let version = buffer[MAGIC_NUMBER_LEN];
        let mut argon_salt = [0u8; SALT_SIZE];
        let mut i: usize = 0;
        while i < SALT_SIZE
            invariant
                buffer@.len() == HEADER_SIZE,
                0 <= i <= SALT_SIZE,
                forall|j: int| 0 <= j < i ==> argon_salt@[j] == buffer@[13 + j],
            decreases SALT_SIZE - i,
        {
            argon_salt[i] = buffer[13 + i];
            i = i + 1;
        }
        let mut xchacha_nonce = [0u8; NONCE_SIZE];
        let mut i: usize = 0;
        while i < NONCE_SIZE
            invariant
                buffer@.len() == HEADER_SIZE,
                0 <= i <= NONCE_SIZE,
                forall|j: int| 0 <= j < i ==> xchacha_nonce@[j] == buffer@[29 + j],
            decreases NONCE_SIZE - i,
        {
            xchacha_nonce[i] = buffer[29 + i];
            i = i + 1;
        }
        let h = EnvelopeFileHeader { magic_number, version, argon_salt, xchacha_nonce };
        assert(header_bytes(h) =~= buffer@);
        Ok(h)
    }

    /// Serializes the header: magic, version, salt and nonce, in that order.
    pub fn to_bytes(&self) -> (r: [u8; HEADER_SIZE])
        ensures
            r@ == header_bytes(*self),
    {
        let mut buffer = [0u8; HEADER_SIZE];
        let mut i: usize = 0;
        while i < MAGIC_NUMBER_LEN
            invariant
                0 <= i <= MAGIC_NUMBER_LEN,
                forall|j: int| 0 <= j < i ==> buffer@[j] == self.magic_number@[j],
            decreases MAGIC_NUMBER_LEN - i,
        {
            buffer[i] = self.magic_number[i];
            i = i + 1;
        }
        buffer[MAGIC_NUMBER_LEN] = self.version;
        let mut i: usize = 0;
        while i < SALT_SIZE
            invariant
                0 <= i <= SALT_SIZE,
                forall|j: int| 0 <= j < MAGIC_NUMBER_LEN ==> buffer@[j] == self.magic_number@[j],
                buffer@[12] == self.version,
                forall|j: int| 0 <= j < i ==> buffer@[13 + j] == self.argon_salt@[j],
            decreases SALT_SIZE - i,
        {
            buffer[13 + i] = self.argon_salt[i];
            i = i + 1;
        }
        let mut i: usize = 0;
        while i < NONCE_SIZE
            invariant
                0 <= i <= NONCE_SIZE,
                forall|j: int| 0 <= j < MAGIC_NUMBER_LEN ==> buffer@[j] == self.magic_number@[j],
                buffer@[12] == self.version,
                forall|j: int| 0 <= j < SALT_SIZE ==> buffer@[13 + j] == self.argon_salt@[j],
                forall|j: int| 0 <= j < i ==> buffer@[29 + j] == self.xchacha_nonce@[j],
            decreases NONCE_SIZE - i,
        {
            buffer[29 + i] = self.xchacha_nonce[i];
            i = i + 1;
        }
        assert(buffer@ =~= header_bytes(*self));
        buffer
    }

    /// The associated data for the AEAD step: magic followed by version.
    pub fn associated_data(&self) -> (r: [u8; 13])
        ensures
            r@ == aad_bytes(*self),
    {
        let mut aad = [0u8; 13];
        let mut i: usize = 0;
        while i < MAGIC_NUMBER_LEN
            invariant
                0 <= i <= MAGIC_NUMBER_LEN,
                forall|j: int| 0 <= j < i ==> aad@[j] == self.magic_number@[j],
            decreases MAGIC_NUMBER_LEN - i,
        {
            aad[i] = self.magic_number[i];
            i = i + 1;
        }
        aad[MAGIC_NUMBER_LEN] = self.version;
        assert(aad@ =~= aad_bytes(*self));
        aad
    }
}

/// Serialization is injective: a header is determined by its bytes.
pub proof fn lemma_header_bytes_injective(a: EnvelopeFileHeader, b: EnvelopeFileHeader)
    requires
        header_bytes(a) == header_bytes(b),
    ensures
        a == b,
{
    broadcast use vstd::array::group_array_axioms;
    let s = header_bytes(a);
    assert(a.magic_number@ =~= s.subrange(0, 12));
    assert(b.magic_number@ =~= s.subrange(0, 12));
    assert(a.argon_salt@ =~= s.subrange(13, 29));
    assert(b.argon_salt@ =~= s.subrange(13, 29));
    assert(a.xchacha_nonce@ =~= s.subrange(29, 53));
    assert(b.xchacha_nonce@ =~= s.subrange(29, 53));
    assert(a.version == s[12]);
    assert(b.version == s[12]);
    assert(a.magic_number == b.magic_number);
    assert(a.argon_salt == b.argon_salt);
    assert(a.xchacha_nonce == b.xchacha_nonce);
}

/// Parsing the serialization of a header that carries the magic gives back
/// that header; buffers of any other length than the header size are
/// refused, and so is a buffer of that size with another magic.
pub proof fn lemma_header_framing(h: EnvelopeFileHeader, b: Seq<u8>, r: Result<EnvelopeFileHeader, FileHeaderError>)
    requires
        parse_outcome(b, r),
    ensures
        has_magic(h) && b == header_bytes(h) ==> r == Ok::<EnvelopeFileHeader, FileHeaderError>(h),
        b.len() != HEADER_SIZE ==> r == Err::<EnvelopeFileHeader, FileHeaderError>(FileHeaderError::WrongHeaderSize),
        b.len() == HEADER_SIZE && b.take(MAGIC_NUMBER_LEN as int) != magic_seq()
            ==> r == Err::<EnvelopeFileHeader, FileHeaderError>(FileHeaderError::WrongMagicNumber),
{
    if has_magic(h) && b == header_bytes(h) {
        assert(b.take(MAGIC_NUMBER_LEN as int) =~= h.magic_number@);
        let h2 = r->Ok_0;
        lemma_header_bytes_injective(h, h2);
    }
}

} // verus!
