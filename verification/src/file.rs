//! The typestate file lifecycle.
//!
//! A [`CryptFile`] is always in exactly one of two states.  `Locked`: no
//! plaintext held; the path may or may not exist on disk.  `Unlocked`: a
//! [`SecretMapping`] is held in memory.  Transitions consume the prior
//! state's value, so a caller can never hold both views of one logical file.
//!
//! The crate performs no I/O of its own: `unlock` takes the bytes the caller
//! read (or `None` when the path does not exist), and `lock` hands back a
//! [`PendingLock`] carrying the envelope to write, which the caller then
//! [`commit`](PendingLock::commit)s or [`abort`](PendingLock::abort)s
//! according to the write's outcome.  On every failure path the in-memory
//! mapping comes back to the caller intact.

use crate::crypto;
use crate::crypto::{decrypt_slice, decrypt_spec, encrypt_slice, password_ok};
use crate::envelope::HEADER_LEN;
use crate::mapping::{decode_payload, lemma_decode_encode, SecretMapping};
use vstd::prelude::*;

verus! {

/// What can go wrong while unlocking or locking a file.
#[derive(Clone, Copy, Debug, PartialEq, Eq, Structural)]
pub enum CryptFileError {
    /// The crypto engine failed: key derivation, a truncated envelope, or a
    /// failed padding check (wrong password or corrupt file).
    Encrypt(crypto::Error),
    /// Reading or writing the file failed.
    Io,
    /// The decrypted bytes are no valid serialized mapping; typically also
    /// caused by a wrong password.
    MalformedPayload,
}

/// What unlocking stored bytes under a password yields, end to end: `None`
/// when the envelope is truncated, the padding check fails, or the decrypted
/// payload does not parse.
pub open spec fn unlock_spec(password: Seq<char>, bytes: Seq<u8>) -> Option<
    Seq<(Seq<char>, Seq<char>)>,
> {
    match decrypt_spec(password, bytes) {
        None => None,
        Some(payload) => decode_payload(payload),
    }
}

/// Marker for the states a [`CryptFile`] can be in.
pub trait State {

}

/// The at-rest state: no plaintext held.
#[derive(Debug)]
pub struct LockedFile;

impl State for LockedFile {

}

/// The in-memory state: holds the decrypted mapping.
#[derive(Debug)]
pub struct UnlockedFile {
    data: SecretMapping,
}

impl State for UnlockedFile {

}

/// A file path together with its current lifecycle state.
#[derive(Debug)]
pub struct CryptFile<S> {
    filepath: String,
    state: S,
}

impl<S> CryptFile<S> {
    pub closed spec fn spec_filepath(self) -> Seq<char> {
        self.filepath@
    }

    pub fn filepath(&self) -> (r: &String)
        ensures
            r@ == self.spec_filepath(),
    {
        &self.filepath
    }
}

impl CryptFile<LockedFile> {
    /// A freshly named file reference starts Locked.
    pub fn new(filepath: String) -> (r: Self)
        ensures
            r.spec_filepath() == filepath@,
    {
        Self { filepath, state: LockedFile }
    }

    /// Decrypts stored bytes into an Unlocked file.
    ///
    /// `contents` is what the caller read at the path, or `None` when the
    /// path does not exist: then a fresh store with an empty mapping is
    /// opened, whatever the password.
    pub fn unlock(self, password: &str, contents: Option<Vec<u8>>) -> (r: Result<
        CryptFile<UnlockedFile>,
        CryptFileError,
    >)
        ensures
            contents is None ==> (r matches Ok(u) && u.spec_filepath() == self.spec_filepath()
                && u.wf() && u.spec_data().spec_entries() == Seq::<(Seq<char>, Seq<char>)>::empty()),
            r matches Ok(u) ==> u.spec_filepath() == self.spec_filepath() && u.wf(),
            contents matches Some(b) ==> (r matches Ok(u) ==> unlock_spec(password@, b@) == Some(
                u.spec_data().spec_entries(),
            )),
            contents matches Some(b) && b@.len() < HEADER_LEN ==> r == Err::<
                CryptFile<UnlockedFile>,
                CryptFileError,
            >(CryptFileError::Encrypt(crypto::Error::TruncatedEnvelope)),
            r matches Err(e) ==> (e matches CryptFileError::Encrypt(c) && (c is KeyDerivation
                || c is TruncatedEnvelope || c is WrongPasswordOrCorrupt)
                || e is MalformedPayload),
            contents matches Some(b) ==> (r == Err::<CryptFile<UnlockedFile>, CryptFileError>(
                CryptFileError::Encrypt(crypto::Error::WrongPasswordOrCorrupt),
            ) ==> decrypt_spec(password@, b@) is None),
            contents matches Some(b) ==> (r == Err::<CryptFile<UnlockedFile>, CryptFileError>(
                CryptFileError::MalformedPayload,
            ) ==> (decrypt_spec(password@, b@) matches Some(p) && decode_payload(p) is None)),
            contents matches Some(b) ==> (unlock_spec(password@, b@) is Some ==> (r is Ok || r
                == Err::<CryptFile<UnlockedFile>, CryptFileError>(
                CryptFileError::Encrypt(crypto::Error::KeyDerivation),
            ))),
            contents matches Some(b) ==> (password_ok(password@) && unlock_spec(password@, b@)
                is Some ==> r is Ok),
            contents matches Some(b) ==> (r == Err::<CryptFile<UnlockedFile>, CryptFileError>(
                CryptFileError::Encrypt(crypto::Error::TruncatedEnvelope),
            ) ==> b@.len() < HEADER_LEN),
            contents matches Some(b) ==> ((password_ok(password@) && b@.len() >= HEADER_LEN
                && decrypt_spec(password@, b@) is None) ==> r == Err::<
                CryptFile<UnlockedFile>,
                CryptFileError,
            >(CryptFileError::Encrypt(crypto::Error::WrongPasswordOrCorrupt))),
            contents matches Some(b) ==> (password_ok(password@) ==> (decrypt_spec(
                password@,
                b@,
            ) matches Some(p) ==> (decode_payload(p) is None ==> r == Err::<
                CryptFile<UnlockedFile>,
                CryptFileError,
            >(CryptFileError::MalformedPayload)))),
    {
        let Self { filepath, state: _ } = self;
        match contents {
            None => Ok(CryptFile { filepath, state: UnlockedFile { data: SecretMapping::new() } }),
            Some(bytes) => {
                let plaintext = match decrypt_slice(password, bytes.as_slice()) {
                    Ok(p) => p,
                    Err(e) => {
                        return Err(CryptFileError::Encrypt(e));
                    },
                };
                match SecretMapping::from_bytes(plaintext.as_slice()) {
                    Some(data) => {
                        proof {
                            assert(unlock_spec(password@, bytes@) == Some(data.spec_entries()));
                        }
                        Ok(CryptFile { filepath, state: UnlockedFile { data } })
                    },
                    None => Err(CryptFileError::MalformedPayload),
                }
            },
        }
    }
}

impl CryptFile<UnlockedFile> {
    pub closed spec fn spec_data(self) -> SecretMapping {
        self.state.data
    }

    /// The mapping's keys are unique.
    pub open spec fn wf(self) -> bool {
        self.spec_data().wf()
    }

    /// Read-only access to the in-memory mapping.
    pub fn data(&self) -> (r: &SecretMapping)
        ensures
            *r == self.spec_data(),
    {
        &self.state.data
    }

    /// Mutable access to the in-memory mapping.
    pub fn data_mut(&mut self) -> (r: &mut SecretMapping)
        ensures
            *r == old(self).spec_data(),
            final(self).spec_data() == *final(r),
            final(self).spec_filepath() == old(self).spec_filepath(),
    {
        &mut self.state.data
    }

    /// Serializes and encrypts the mapping under a fresh salt, secret and IV.
    ///
    /// On success the envelope to write is carried by the returned
    /// [`PendingLock`], and it decrypts back to exactly this mapping under
    /// the same password.  On failure the caller gets the Unlocked value
    /// back unchanged beside the error: unsaved data is never lost.
    pub fn lock(self, password: &str) -> (r: Result<
        PendingLock,
        (CryptFile<UnlockedFile>, CryptFileError),
    >)
        requires
            self.wf(),
        ensures
            r matches Ok(p) ==> p.spec_filepath() == self.spec_filepath() && p.spec_data()
                == self.spec_data() && unlock_spec(password@, p.spec_envelope()) == Some(
                self.spec_data().spec_entries(),
            ),
            r matches Err(t) ==> t.0 == self && t.1 == CryptFileError::Encrypt(
                crypto::Error::KeyDerivation,
            ),
            password_ok(password@) ==> r is Ok,
    {
        let payload = self.state.data.to_bytes();
        match encrypt_slice(password, payload.as_slice()) {
            Ok(envelope) => {
                proof {
                    lemma_decode_encode(self.state.data.spec_entries());
                }
                Ok(
                    PendingLock {
                        filepath: self.filepath,
                        data: self.state.data,
                        envelope,
                    },
                )
            },
            Err(_) => Err((self, CryptFileError::Encrypt(crypto::Error::KeyDerivation))),
        }
    }
}

/// A lock transition whose envelope still has to reach the disk.
///
/// Holds the path, the envelope bytes to write, and the mapping itself, so
/// that a failed write can hand the caller the Unlocked value back.
#[derive(Debug)]
pub struct PendingLock {
    filepath: String,
    data: SecretMapping,
    envelope: Vec<u8>,
}

impl PendingLock {
    pub closed spec fn spec_filepath(self) -> Seq<char> {
        self.filepath@
    }

    pub closed spec fn spec_data(self) -> SecretMapping {
        self.data
    }

    pub closed spec fn spec_envelope(self) -> Seq<u8> {
        self.envelope@
    }

    pub fn filepath(&self) -> (r: &String)
        ensures
            r@ == self.spec_filepath(),
    {
        &self.filepath
    }

    /// The envelope bytes the caller must write at the path.
    pub fn envelope(&self) -> (r: &Vec<u8>)
        ensures
            r@ == self.spec_envelope(),
    {
        &self.envelope
    }

    /// The write succeeded: the transition completes and the plaintext is
    /// discarded from memory.
    pub fn commit(self) -> (r: CryptFile<LockedFile>)
        ensures
            r.spec_filepath() == self.spec_filepath(),
    {
        CryptFile { filepath: self.filepath, state: LockedFile }
    }

    /// The write failed: the original Unlocked value comes back intact
    /// beside the error, ready for a retry.
    pub fn abort(self) -> (r: (CryptFile<UnlockedFile>, CryptFileError))
        ensures
            r.0.spec_filepath() == self.spec_filepath(),
            r.0.spec_data() == self.spec_data(),
            r.1 == CryptFileError::Io,
    {
        (
            CryptFile { filepath: self.filepath, state: UnlockedFile { data: self.data } },
            CryptFileError::Io,
        )
    }
}

} // verus!
