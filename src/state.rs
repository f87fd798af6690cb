//! The envelope state machine: what the store file holds, and which
//! commands each state admits.
use vstd::prelude::*;
use vstd::slice::{slice_subrange, slice_to_vec};
use vstd::string::StringSliceAdditionalSpecFns;
use crate::crypto::{TAG_LEN, decrypt_outcome, decrypt_with, encrypt_with, kdf_accepts, CryptoError, KdfCost};
use crate::header::{
    has_magic, header_bytes, magic_seq, EnvelopeFileHeader, CURRENT_VERSION,
    HEADER_SIZE, MAGIC_NUMBER_LEN,
};

verus! {

pub const SQLITE_MAGIC_LEN: usize = 16;

/// The first bytes of every SQLite database file: "SQLite format 3" and a NUL.
pub const SQLITE_MAGIC: [u8; SQLITE_MAGIC_LEN] = [
    0x53, 0x51, 0x4c, 0x69, 0x74, 0x65, 0x20, 0x66, 0x6f, 0x72, 0x6d, 0x61, 0x74, 0x20, 0x33, 0x00,
];

pub open spec fn sqlite_magic_seq() -> Seq<u8> {
    seq![0x53u8, 0x51u8, 0x4cu8, 0x69u8, 0x74u8, 0x65u8, 0x20u8, 0x66u8, 0x6fu8, 0x72u8, 0x6du8, 0x61u8, 0x74u8, 0x20u8, 0x33u8, 0x00u8]
}

pub open spec fn starts_with(b: Seq<u8>, prefix: Seq<u8>) -> bool {
    b.len() >= prefix.len() && b.take(prefix.len() as int) == prefix
}

/// A locked envelope: the parsed header and the ciphertext that follows it.
#[derive(Debug)]
pub struct LockedEnvelope {
    pub header: EnvelopeFileHeader,
    pub ciphertext: Vec<u8>,
}

/// An unlocked envelope: the bytes of the plain store file.
#[derive(Debug)]
pub struct UnlockedEnvelope {
    pub plaintext: Vec<u8>,
}

/// What the store file holds.
#[derive(Debug)]
pub enum EnvelopeState {
    Absent,
    Locked(LockedEnvelope),
    Unlocked,
}

#[derive(Debug, Clone, Copy, PartialEq, Eq)]
pub enum StateError {
    Invalid,
    NotInitialized,
    AlreadyInitialized,
    StillLocked,
    AlreadyLocked,
    AlreadyUnlocked,
    PasswordMismatch,
    EmptyPassword,
    Crypto(CryptoError),
}

/// The commands that the state machine gates.
#[derive(Debug, Clone, Copy, PartialEq, Eq)]
pub enum Command {
    Init,
    Lock,
    Unlock,
    /// Any read or write of the variable store.
    Data,
}

/// The state detected for a file's contents (`None`: no file).
pub open spec fn detect_outcome(contents: Option<Seq<u8>>, r: Result<EnvelopeState, StateError>) -> bool {
    match contents {
        None => r matches Ok(EnvelopeState::Absent),
        Some(b) => if b.len() == 0 {
            r matches Ok(EnvelopeState::Absent)
        } else if starts_with(b, magic_seq()) {
            if b.len() >= HEADER_SIZE {
                r matches Ok(EnvelopeState::Locked(l))
                    && header_bytes(l.header) == b.take(HEADER_SIZE as int)
                    && l.ciphertext@ == b.skip(HEADER_SIZE as int)
            } else {
                r == Err::<EnvelopeState, StateError>(StateError::Invalid)
            }
        } else if starts_with(b, sqlite_magic_seq()) {
            r matches Ok(EnvelopeState::Unlocked)
        } else {
            r == Err::<EnvelopeState, StateError>(StateError::Invalid)
        },
    }
}

/// The bytes of a locked store file: the header, then the ciphertext.
pub open spec fn locked_file(l: LockedEnvelope) -> Seq<u8> {
    header_bytes(l.header) + l.ciphertext@
}

/// Whether `b` begins with `prefix`.
fn has_prefix(b: &[u8], prefix: &[u8]) -> (r: bool)
    ensures
        r == starts_with(b@, prefix@),
{
    if b.len() < prefix.len() {
        return false;
    }
    let mut i: usize = 0;
    while i < prefix.len()
        invariant
            b@.len() >= prefix@.len(),
            0 <= i <= prefix@.len(),
            forall|j: int| 0 <= j < i ==> b@[j] == prefix@[j],
        decreases prefix@.len() - i,
    {
        if b[i] != prefix[i] {
            assert(b@.take(prefix@.len() as int)[i as int] != prefix@[i as int]);
            return false;
        }
        i = i + 1;
    }
    assert(b@.take(prefix@.len() as int) =~= prefix@);
    true
}

/// Classifies the contents of the store file (`None` when there is no file).
pub fn detect(contents: Option<&[u8]>) -> (r: Result<EnvelopeState, StateError>)
    ensures
        detect_outcome(
            match contents {
                Some(b) => Some(b@),
                None => None,
            },
            r,
        ),
{
    let b = match contents {
        None => return Ok(EnvelopeState::Absent),
        Some(b) => b,
    };
    if b.len() == 0 {
        return Ok(EnvelopeState::Absent);
    }
    let magic = crate::header::MAGIC_NUMBER;
    assert(magic@ =~= magic_seq());
    if has_prefix(b, magic.as_slice()) {
        if b.len() >= HEADER_SIZE {
            let head = slice_subrange(b, 0, HEADER_SIZE);
            assert(head@.take(MAGIC_NUMBER_LEN as int) =~= b@.take(MAGIC_NUMBER_LEN as int));
            match EnvelopeFileHeader::try_from(head) {
                Ok(header) => {
                    let rest = slice_subrange(b, HEADER_SIZE, b.len());
                    let ciphertext = slice_to_vec(rest);
                    return Ok(EnvelopeState::Locked(LockedEnvelope::new(header, ciphertext)));
                },
                Err(_) => {
                    return Err(StateError::Invalid);
                },
            }
        }
        return Err(StateError::Invalid);
    }
    let sqlite = SQLITE_MAGIC;
    assert(sqlite@ =~= sqlite_magic_seq());
    if has_prefix(b, sqlite.as_slice()) {
        return Ok(EnvelopeState::Unlocked);
    }
    Err(StateError::Invalid)
}

/// Whether a command is admitted in a state, and the error otherwise.
pub open spec fn command_outcome(state: EnvelopeState, cmd: Command) -> Result<(), StateError> {
    match state {
        EnvelopeState::Absent => match cmd {
            Command::Init => Ok(()),
            _ => Err(StateError::NotInitialized),
        },
        EnvelopeState::Locked(_) => match cmd {
            Command::Unlock => Ok(()),
            Command::Init => Err(StateError::AlreadyInitialized),
            Command::Lock => Err(StateError::AlreadyLocked),
            Command::Data => Err(StateError::StillLocked),
        },
        EnvelopeState::Unlocked => match cmd {
            Command::Lock | Command::Data => Ok(()),
            Command::Init => Err(StateError::AlreadyInitialized),
            Command::Unlock => Err(StateError::AlreadyUnlocked),
        },
    }
}

impl EnvelopeState {
    /// Admits `init` on an absent store, `unlock` on a locked one, `lock`
    /// and store operations on an unlocked one, and refuses the rest.
    pub fn admits(&self, cmd: Command) -> (r: Result<(), StateError>)
        ensures
            r == command_outcome(*self, cmd),
    {
        match self {
            EnvelopeState::Absent => match cmd {
                Command::Init => Ok(()),
                _ => Err(StateError::NotInitialized),
            },
            EnvelopeState::Locked(_) => match cmd {
                Command::Unlock => Ok(()),
                Command::Init => Err(StateError::AlreadyInitialized),
                Command::Lock => Err(StateError::AlreadyLocked),
                Command::Data => Err(StateError::StillLocked),
            },
            EnvelopeState::Unlocked => match cmd {
                Command::Lock | Command::Data => Ok(()),
                Command::Init => Err(StateError::AlreadyInitialized),
                Command::Unlock => Err(StateError::AlreadyUnlocked),
            },
        }
    }
}

impl LockedEnvelope {
    pub fn new(header: EnvelopeFileHeader, ciphertext: Vec<u8>) -> (r: LockedEnvelope)
        ensures
            r.header == header,
            r.ciphertext@ == ciphertext@,
    {
        LockedEnvelope { header, ciphertext }
    }

    /// Decrypts the store; the caller writes the plaintext back in place of
    /// the locked file.
    pub fn unlock(self, password: &str) -> (r: Result<Vec<u8>, StateError>)
        ensures
            match decrypt_outcome(self.ciphertext@, self.header, password.spec_bytes(), KdfCost::production_spec()) {
                Ok(p) => r matches Ok(q) && q@ == p,
                Err(e) => r == Err::<Vec<u8>, StateError>(StateError::Crypto(e)),
            },
    {
        let cost = KdfCost::production();
        self.unlock_with(password, &cost)
    }

    /// `unlock` with the given key-derivation cost.
    pub fn unlock_with(self, password: &str, cost: &KdfCost) -> (r: Result<Vec<u8>, StateError>)
        ensures
            match decrypt_outcome(self.ciphertext@, self.header, password.spec_bytes(), *cost) {
                Ok(p) => r matches Ok(q) && q@ == p,
                Err(e) => r == Err::<Vec<u8>, StateError>(StateError::Crypto(e)),
            },
    {
        match decrypt_with(self.ciphertext.as_slice(), &self.header, password.as_bytes(), cost) {
            Ok(p) => Ok(p),
            Err(e) => Err(StateError::Crypto(e)),
        }
    }

    /// The bytes of the locked file: header, then ciphertext.
    pub fn to_file_bytes(&self) -> (r: Vec<u8>)
        ensures
            r@ == locked_file(*self),
    {
        let head = self.header.to_bytes();
        let mut out: Vec<u8> = Vec::new();
        let mut i: usize = 0;
        while i < HEADER_SIZE
            invariant
                0 <= i <= HEADER_SIZE,
                head@ == header_bytes(self.header),
                out@ == head@.take(i as int),
            decreases HEADER_SIZE - i,
        {
            out.push(head[i]);
            i = i + 1;
            assert(out@ =~= head@.take(i as int));
        }
        let mut j: usize = 0;
        while j < self.ciphertext.len()
            invariant
                0 <= j <= self.ciphertext@.len(),
                out@ == head@ + self.ciphertext@.take(j as int),
            decreases self.ciphertext@.len() - j,
        {
            out.push(self.ciphertext[j]);
            j = j + 1;
            assert(out@ =~= head@ + self.ciphertext@.take(j as int));
        }
        assert(self.ciphertext@.take(j as int) =~= self.ciphertext@);
        out
    }
}

/// Whether two byte strings are equal.
fn bytes_equal(a: &[u8], b: &[u8]) -> (r: bool)
    ensures
        r == (a@ == b@),
{
    if a.len() != b.len() {
        return false;
    }
    let mut i: usize = 0;
    while i < a.len()
        invariant
            a@.len() == b@.len(),
            0 <= i <= a@.len(),
            forall|j: int| 0 <= j < i ==> a@[j] == b@[j],
        decreases a@.len() - i,
    {
        if a[i] != b[i] {
            return false;
        }
        i = i + 1;
    }
    assert(a@ =~= b@);
    true
}

impl UnlockedEnvelope {
    pub fn new(plaintext: Vec<u8>) -> (r: UnlockedEnvelope)
        ensures
            r.plaintext@ == plaintext@,
    {
        UnlockedEnvelope { plaintext }
    }

    /// Seals the store under a password entered twice. An empty first entry is
    /// refused before the two are compared; a fresh header is drawn for every
    /// call.
    pub fn lock(self, password: &str, confirm_password: &str) -> (r: Result<LockedEnvelope, StateError>)
        ensures
            password.spec_bytes().len() == 0
                ==> r == Err::<LockedEnvelope, StateError>(StateError::EmptyPassword),
            password.spec_bytes().len() > 0 && password.spec_bytes() != confirm_password.spec_bytes()
                ==> r == Err::<LockedEnvelope, StateError>(StateError::PasswordMismatch),
            password.spec_bytes() == confirm_password.spec_bytes() && password.spec_bytes().len() > 0
                && password.spec_bytes().len() <= 0xFFFF_FFFF
                && self.plaintext@.len() <= crate::crypto::MAX_MESSAGE_LEN ==> r is Ok,
            r is Err ==> r == Err::<LockedEnvelope, StateError>(StateError::PasswordMismatch)
                || r == Err::<LockedEnvelope, StateError>(StateError::EmptyPassword)
                || r == Err::<LockedEnvelope, StateError>(StateError::Crypto(CryptoError::KeyDerivationFailed))
                || r == Err::<LockedEnvelope, StateError>(StateError::Crypto(CryptoError::EncryptionFailed)),
            r matches Ok(l) ==> has_magic(l.header) && l.header.version == CURRENT_VERSION,
            r matches Ok(l) ==> l.ciphertext@.len() == self.plaintext@.len() + TAG_LEN,
            r matches Ok(l) ==> decrypt_outcome(l.ciphertext@, l.header, password.spec_bytes(), KdfCost::production_spec())
                == Ok::<Seq<u8>, CryptoError>(self.plaintext@),
    {
        let cost = KdfCost::production();
        self.lock_with(password, confirm_password, &cost)
    }

    /// `lock` with the given key-derivation cost.
    pub fn lock_with(self, password: &str, confirm_password: &str, cost: &KdfCost) -> (r: Result<LockedEnvelope, StateError>)
        ensures
            password.spec_bytes().len() == 0
                ==> r == Err::<LockedEnvelope, StateError>(StateError::EmptyPassword),
            password.spec_bytes().len() > 0 && password.spec_bytes() != confirm_password.spec_bytes()
                ==> r == Err::<LockedEnvelope, StateError>(StateError::PasswordMismatch),
            password.spec_bytes() == confirm_password.spec_bytes() && password.spec_bytes().len() > 0
                && kdf_accepts(password.spec_bytes(), *cost)
                && self.plaintext@.len() <= crate::crypto::MAX_MESSAGE_LEN ==> r is Ok,
            r is Err ==> r == Err::<LockedEnvelope, StateError>(StateError::PasswordMismatch)
                || r == Err::<LockedEnvelope, StateError>(StateError::EmptyPassword)
                || r == Err::<LockedEnvelope, StateError>(StateError::Crypto(CryptoError::KeyDerivationFailed))
                || r == Err::<LockedEnvelope, StateError>(StateError::Crypto(CryptoError::EncryptionFailed)),
            r matches Ok(l) ==> has_magic(l.header) && l.header.version == CURRENT_VERSION,
            r matches Ok(l) ==> l.ciphertext@.len() == self.plaintext@.len() + TAG_LEN,
            r matches Ok(l) ==> decrypt_outcome(l.ciphertext@, l.header, password.spec_bytes(), *cost)
                == Ok::<Seq<u8>, CryptoError>(self.plaintext@),
    {
        let pw = password.as_bytes();
        if pw.len() == 0 {
            return Err(StateError::EmptyPassword);
        }
        if !bytes_equal(pw, confirm_password.as_bytes()) {
            return Err(StateError::PasswordMismatch);
        }
        let mut header = EnvelopeFileHeader::default();
        match encrypt_with(&mut header, self.plaintext.as_slice(), pw, cost) {
            Ok(ciphertext) => Ok(LockedEnvelope::new(header, ciphertext)),
            Err(e) => Err(StateError::Crypto(e)),
        }
    }
}

/// A locked file written by `to_file_bytes` is detected as locked, with the
/// same header and ciphertext, so unlocking what is read back yields what
/// unlocking the written envelope would.
pub proof fn lemma_locked_file_detected(l: LockedEnvelope, r: Result<EnvelopeState, StateError>, password: Seq<u8>, cost: KdfCost)
    requires
        has_magic(l.header),
        detect_outcome(Some(locked_file(l)), r),
    ensures
        r matches Ok(EnvelopeState::Locked(m)) && m.header == l.header && m.ciphertext@ == l.ciphertext@
            && decrypt_outcome(m.ciphertext@, m.header, password, cost) == decrypt_outcome(l.ciphertext@, l.header, password, cost),
{
    let b = locked_file(l);
    assert(b.take(HEADER_SIZE as int) =~= header_bytes(l.header));
    assert(b.skip(HEADER_SIZE as int) =~= l.ciphertext@);
    assert(b.take(MAGIC_NUMBER_LEN as int) =~= magic_seq());
    let m = r->Ok_0->Locked_0;
    crate::header::lemma_header_bytes_injective(m.header, l.header);
}

} // verus!
