use envelope::crypto::{CryptoError, KdfCost};
use envelope::header::{EnvelopeFileHeader, HEADER_SIZE, MAGIC_NUMBER};
use envelope::state::{detect, Command, EnvelopeState, LockedEnvelope, StateError, UnlockedEnvelope, SQLITE_MAGIC};

#[test]
fn absent_and_empty_files_are_absent() {
    assert!(matches!(detect(None), Ok(EnvelopeState::Absent)));
    assert!(matches!(detect(Some(&[])), Ok(EnvelopeState::Absent)));
}

#[test]
fn sqlite_file_is_unlocked() {
    let mut file = SQLITE_MAGIC.to_vec();
    file.extend_from_slice(b"rest of the database");
    assert!(matches!(detect(Some(&file)), Ok(EnvelopeState::Unlocked)));
    assert!(matches!(detect(Some(&SQLITE_MAGIC[..15])), Err(StateError::Invalid)));
}

#[test]
fn envelope_file_is_locked_with_header_and_ciphertext() {
    let mut header = EnvelopeFileHeader::default();
    header.argon_salt = [3u8; 16];
    let locked = LockedEnvelope::new(header.clone(), vec![1, 2, 3]);
    let file = locked.to_file_bytes();
    assert_eq!(file.len(), HEADER_SIZE + 3);
    match detect(Some(&file)) {
        Ok(EnvelopeState::Locked(l)) => {
            assert_eq!(l.header, header);
            assert_eq!(l.ciphertext, vec![1, 2, 3]);
        }
        _ => panic!("expected a locked envelope"),
    }
}

#[test]
fn short_envelope_and_garbage_are_invalid() {
    assert!(matches!(detect(Some(&MAGIC_NUMBER[..])), Err(StateError::Invalid)));
    assert!(matches!(detect(Some(b"hello world, not a store")), Err(StateError::Invalid)));
}

#[test]
fn commands_by_state() {
    let locked = EnvelopeState::Locked(LockedEnvelope::new(EnvelopeFileHeader::default(), vec![]));
    assert_eq!(EnvelopeState::Absent.admits(Command::Init), Ok(()));
    assert_eq!(EnvelopeState::Absent.admits(Command::Data), Err(StateError::NotInitialized));
    assert_eq!(EnvelopeState::Absent.admits(Command::Lock), Err(StateError::NotInitialized));
    assert_eq!(locked.admits(Command::Unlock), Ok(()));
    assert_eq!(locked.admits(Command::Data), Err(StateError::StillLocked));
    assert_eq!(locked.admits(Command::Lock), Err(StateError::AlreadyLocked));
    assert_eq!(locked.admits(Command::Init), Err(StateError::AlreadyInitialized));
    assert_eq!(EnvelopeState::Unlocked.admits(Command::Lock), Ok(()));
    assert_eq!(EnvelopeState::Unlocked.admits(Command::Data), Ok(()));
    assert_eq!(EnvelopeState::Unlocked.admits(Command::Unlock), Err(StateError::AlreadyUnlocked));
    assert_eq!(EnvelopeState::Unlocked.admits(Command::Init), Err(StateError::AlreadyInitialized));
}

#[test]
fn lock_checks_password_entries() {
    let store = || UnlockedEnvelope::new(b"SQLite format 3\0data".to_vec());
    assert!(matches!(store().lock("a", "b"), Err(StateError::PasswordMismatch)));
    assert!(matches!(store().lock("", ""), Err(StateError::EmptyPassword)));
    assert!(matches!(store().lock("", "b"), Err(StateError::EmptyPassword)));
}

#[test]
fn lock_then_unlock_round_trip() {
    let plaintext = b"SQLite format 3\0data".to_vec();
    let cost = KdfCost::reduced();
    let locked = UnlockedEnvelope::new(plaintext.clone()).lock_with("pw", "pw", &cost).unwrap();
    let file = locked.to_file_bytes();
    let again = match detect(Some(&file)) {
        Ok(EnvelopeState::Locked(l)) => l,
        _ => panic!("expected a locked envelope"),
    };
    assert!(matches!(
        LockedEnvelope::new(again.header.clone(), again.ciphertext.clone()).unlock_with("wrong", &cost),
        Err(StateError::Crypto(CryptoError::DecryptionFailed))
    ));
    assert_eq!(again.ciphertext.len(), plaintext.len() + 16);
    assert_eq!(again.unlock_with("pw", &cost).unwrap(), plaintext);
}
