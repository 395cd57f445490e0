use crypt_client::crypto;
use crypt_client::driver::ReplDriver;
use crypt_client::crypto::encrypt_slice;
use crypt_client::dummy_drivers::MockDriver;
use crypt_client::file::{CryptFile, CryptFileError};
use crypt_client::mapping::SecretMapping;
use crypt_client::repl::{LockFileStep, Repl};

#[test]
fn mapping_set_get_remove() {
    let mut m = SecretMapping::new();
    assert_eq!(m.len(), 0);
    assert!(m.get("a").is_none());
    m.set("a".to_string(), "1".to_string());
    m.set("b".to_string(), "2".to_string());
    assert_eq!(m.len(), 2);
    assert_eq!(m.get("a").unwrap(), "1");
    assert_eq!(m.get("b").unwrap(), "2");
    m.set("a".to_string(), "replaced".to_string());
    assert_eq!(m.len(), 2);
    assert_eq!(m.get("a").unwrap(), "replaced");
    assert!(m.remove("a"));
    assert!(!m.remove("a"));
    assert!(m.get("a").is_none());
    assert_eq!(m.get("b").unwrap(), "2");
    assert_eq!(m.len(), 1);
}

#[test]
fn payload_round_trip() {
    let mut m = SecretMapping::new();
    m.set("key one".to_string(), "value one".to_string());
    m.set("key two".to_string(), "".to_string());
    m.set("".to_string(), "empty key".to_string());
    let bytes = m.to_bytes();
    let back = SecretMapping::from_bytes(bytes.as_slice()).unwrap();
    assert_eq!(back.len(), 3);
    assert_eq!(back.get("key one").unwrap(), "value one");
    assert_eq!(back.get("key two").unwrap(), "");
    assert_eq!(back.get("").unwrap(), "empty key");
}

#[test]
fn payload_exact_bytes() {
    // count (u64 LE), then per pair: key length, key bytes, value length,
    // value bytes.
    let mut m = SecretMapping::new();
    m.set("k".to_string(), "vw".to_string());
    let mut expected: Vec<u8> = Vec::new();
    expected.extend_from_slice(&1u64.to_le_bytes());
    expected.extend_from_slice(&1u64.to_le_bytes());
    expected.extend_from_slice(b"k");
    expected.extend_from_slice(&2u64.to_le_bytes());
    expected.extend_from_slice(b"vw");
    assert_eq!(m.to_bytes(), expected);
}

#[test]
fn payload_rejects_invalid_utf8_and_trailing_bytes() {
    let mut bad_utf8: Vec<u8> = Vec::new();
    bad_utf8.extend_from_slice(&1u64.to_le_bytes());
    bad_utf8.extend_from_slice(&1u64.to_le_bytes());
    bad_utf8.push(0xFF);
    bad_utf8.extend_from_slice(&0u64.to_le_bytes());
    assert!(SecretMapping::from_bytes(bad_utf8.as_slice()).is_none());

    let m = SecretMapping::new();
    let mut trailing = m.to_bytes();
    trailing.push(0);
    assert!(SecretMapping::from_bytes(trailing.as_slice()).is_none());
}

#[test]
fn first_open_of_missing_file_is_empty() {
    let file = CryptFile::new("store.crypt".to_string());
    let unlocked = file.unlock("whatever password", None).unwrap();
    assert_eq!(unlocked.data().len(), 0);
    assert_eq!(unlocked.filepath(), "store.crypt");
}

#[test]
fn lock_then_unlock_round_trips() {
    let file = CryptFile::new("store.crypt".to_string());
    let mut unlocked = file.unlock("pw", None).unwrap();
    unlocked.data_mut().set("alpha".to_string(), "1".to_string());
    unlocked.data_mut().set("beta".to_string(), "2".to_string());
    let pending = unlocked.lock("pw").unwrap();
    let disk = pending.envelope().clone();
    let locked = pending.commit();
    assert_eq!(locked.filepath(), "store.crypt");

    let reopened = CryptFile::new("store.crypt".to_string())
        .unlock("pw", Some(disk))
        .unwrap();
    assert_eq!(reopened.data().len(), 2);
    assert_eq!(reopened.data().get("alpha").unwrap(), "1");
    assert_eq!(reopened.data().get("beta").unwrap(), "2");
}

#[test]
fn wrong_password_never_yields_a_mapping() {
    let file = CryptFile::new("store.crypt".to_string());
    let mut unlocked = file.unlock("right", None).unwrap();
    unlocked.data_mut().set("k".to_string(), "v".to_string());
    let pending = unlocked.lock("right").unwrap();
    let disk = pending.envelope().clone();
    pending.commit();
    match CryptFile::new("store.crypt".to_string()).unlock("wrong", Some(disk)) {
        Err(CryptFileError::Encrypt(crypto::Error::WrongPasswordOrCorrupt)) => {}
        Err(other) => panic!("unexpected error {:?}", other),
        Ok(_) => panic!("a wrong password must not unlock the file"),
    }
}

#[test]
fn malformed_payload_is_detected() {
    // A well-formed envelope whose decrypted payload is no serialized
    // mapping.
    let env = encrypt_slice("pw", b"not a payload").unwrap();
    match CryptFile::new("f".to_string()).unlock("pw", Some(env)) {
        Err(CryptFileError::MalformedPayload) => {}
        other => panic!("expected a malformed-payload error, got {:?}", other),
    }
}

#[test]
fn failed_save_preserves_data() {
    let file = CryptFile::new("store.crypt".to_string());
    let mut unlocked = file.unlock("pw", None).unwrap();
    unlocked.data_mut().set("precious".to_string(), "data".to_string());
    let pending = unlocked.lock("pw").unwrap();
    // The write failed: abort hands the Unlocked value back intact.
    let (unlocked_again, error) = pending.abort();
    assert_eq!(error, CryptFileError::Io);
    assert_eq!(unlocked_again.filepath(), "store.crypt");
    assert_eq!(unlocked_again.data().get("precious").unwrap(), "data");
}

#[test]
fn registry_failed_save_keeps_entry() {
    let mut repl = Repl::new(MockDriver::Echo);
    repl.unlock_file("a".to_string(), "p".to_string(), "pw".to_string(), None)
        .unwrap();
    assert!(repl.data_set("a", "k".to_string(), "v".to_string()));
    let session = match repl.lock_file_begin("a") {
        LockFileStep::Sealed(s) => s,
        _ => panic!("sealing an open alias must succeed"),
    };
    assert_eq!(repl.open_count(), 0);
    // The write failed: the entry is reinserted with its data.
    let err = repl.lock_file_finish(session, false);
    assert_eq!(err, Some(CryptFileError::Io));
    assert_eq!(repl.open_count(), 1);
    assert_eq!(repl.data_get("a", "k").unwrap(), "v");
}

#[test]
fn bulk_close_partial_failure() {
    let mut repl = Repl::new(MockDriver::Echo);
    for alias in ["a", "b", "c"] {
        repl.unlock_file(
            alias.to_string(),
            format!("{}.crypt", alias),
            "pw".to_string(),
            None,
        )
        .unwrap();
        assert!(repl.data_set(alias, "owner".to_string(), alias.to_string()));
    }
    let (pendings, seal_failures) = repl.lock_all_begin();
    assert!(seal_failures.is_empty());
    assert_eq!(pendings.len(), 3);
    assert_eq!(repl.open_count(), 0);
    // Fail the write for alias "b" only.
    let results: Vec<bool> = pendings.iter().map(|p| p.alias() != "b").collect();
    let report = repl.lock_all_finish(pendings, results);
    assert_eq!(report.len(), 1);
    assert_eq!(report[0].0, "b");
    assert_eq!(report[0].1, CryptFileError::Io);
    assert_eq!(repl.open_count(), 1);
    assert_eq!(repl.data_get("b", "owner").unwrap(), "b");
    assert!(repl.data_get("a", "owner").is_none());
    assert!(repl.data_get("c", "owner").is_none());
}

#[test]
fn open_alias_scenario() {
    // Open a nonexistent path, store a pair, close, reopen with the right
    // and then the wrong password.
    let mut repl = Repl::new(MockDriver::Echo);
    repl.unlock_file("a".to_string(), "s.crypt".to_string(), "pw".to_string(), None)
        .unwrap();
    assert!(repl.data_get("a", "k").is_none());
    assert!(repl.data_set("a", "k".to_string(), "v".to_string()));
    let session = match repl.lock_file_begin("a") {
        LockFileStep::Sealed(s) => s,
        _ => panic!("sealing an open alias must succeed"),
    };
    let disk = session.pending().envelope().clone();
    assert_eq!(session.pending().filepath(), "s.crypt");
    assert!(repl.lock_file_finish(session, true).is_none());
    assert_eq!(repl.open_count(), 0);

    repl.unlock_file(
        "a".to_string(),
        "s.crypt".to_string(),
        "pw".to_string(),
        Some(disk.clone()),
    )
    .unwrap();
    assert_eq!(repl.data_get("a", "k").unwrap(), "v");

    let mut other = Repl::new(MockDriver::Echo);
    match other.unlock_file(
        "a".to_string(),
        "s.crypt".to_string(),
        "wrong".to_string(),
        Some(disk),
    ) {
        Err(CryptFileError::Encrypt(crypto::Error::WrongPasswordOrCorrupt)) => {}
        other => panic!("expected a wrong-password error, got {:?}", other),
    }
    assert_eq!(other.open_count(), 0);
}

#[test]
fn reopening_an_alias_replaces_the_binding() {
    let mut repl = Repl::new(MockDriver::Echo);
    repl.unlock_file("a".to_string(), "one".to_string(), "pw".to_string(), None)
        .unwrap();
    assert!(repl.data_set("a", "k".to_string(), "old".to_string()));
    repl.unlock_file("a".to_string(), "two".to_string(), "pw".to_string(), None)
        .unwrap();
    assert_eq!(repl.open_count(), 1);
    assert_eq!(repl.open_filepath("a").unwrap(), "two");
    assert!(repl.data_get("a", "k").is_none());
}

#[test]
fn mock_driver_answers_prompts() {
    let mut echo = MockDriver::Echo;
    assert_eq!(echo.prompt_line("..."), Ok("...".to_string()));
    assert_eq!(echo.prompt_password("..."), Ok("...".to_string()));
    let mut fixed = MockDriver::MockDefault("test".to_string());
    assert_eq!(fixed.prompt_line("..."), Ok("test".to_string()));
    assert_eq!(fixed.prompt_password("..."), Ok("test".to_string()));
    let mut split = MockDriver::MockAll {
        prompt: "This is a prompt".to_string(),
        password: "This is a password".to_string(),
    };
    assert_eq!(split.prompt_line("..."), Ok("This is a prompt".to_string()));
    assert_eq!(split.prompt_password("..."), Ok("This is a password".to_string()));
    assert!(split.clear_screen().is_ok());
}

#[test]
fn registry_lock_of_unknown_alias() {
    let mut repl = Repl::new(MockDriver::Echo);
    match repl.lock_file_begin("nope") {
        LockFileStep::NotFound => {}
        _ => panic!("an unknown alias must report NotFound"),
    }
    let mut repl2 = Repl::new(MockDriver::MockDefault("line".to_string()));
    repl2.print_usage();
    assert_eq!(repl2.open_aliases().len(), 0);
}
