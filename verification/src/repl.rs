//! The session registry: a table of open files keyed by a user-chosen alias.
//!
//! Each entry keeps the password the file was opened with, so a later lock
//! or bulk exit can re-encrypt without prompting again.  Every operation
//! preserves the registry's guarantee that unsaved data is never lost: a
//! failed lock leaves the entry (and its mapping) in the table.
//!
//! Locking goes in two steps, because writing the envelope to disk is the
//! caller's job: `lock_file_begin` seals the mapping and hands out a
//! [`PendingSession`]; once the caller has attempted the write,
//! `lock_file_finish` either drops the entry for good or reinserts it intact.

use crate::crypto;
use crate::driver::ReplDriver;
use crate::crypto::password_ok;
use crate::file::{unlock_spec, CryptFile, CryptFileError, PendingLock, UnlockedFile};
use crate::mapping::{
    entries_get,
    lemma_entries_get_absent,
    lemma_entries_get_at,
    lemma_entries_get_push,
    lemma_entries_get_remove,
    unique_keys,
};
use vstd::prelude::*;

verus! {

/// The commands and usage of the interactive front end.
pub const USAGE_TEXT: &'static str = "Crypt REPL usage:
| Command                              | Description                                                   |
|--------------------------------------|---------------------------------------------------------------|
| clear                                | Clear the screen                                              |
| help                                 | Print this help dialog                                        |
| exit <code> [--no-save]              | Exit the REPL                                                 |
| crypt list                           | List all unsaved crypts                                       |
| crypt unlock <alias> <filepath>      | Read and decrypt the specified file using the specified alias |
| crypt lock <alias>                   | Encrypt and write the file mapped to the specified alias      |
| crypt data <alias> list              | List all keys                                                 |
| crypt data <alias> get <key>         | Print the value of the specified key                          |
| crypt data <alias> set <key> <value> | Set the specified key/value pair                              |
| crypt data <alias> delete <key>      | Delete the specified key                                      |
";

/// A sealed lock transition together with the session entry it came from.
pub struct PendingSession {
    alias: String,
    password: String,
    lock: PendingLock,
}

impl PendingSession {
    pub closed spec fn spec_alias(self) -> Seq<char> {
        self.alias@
    }

    pub closed spec fn spec_password(self) -> Seq<char> {
        self.password@
    }

    pub closed spec fn spec_lock(self) -> PendingLock {
        self.lock
    }

    pub fn alias(&self) -> (r: &String)
        ensures
            r@ == self.spec_alias(),
    {
        &self.alias
    }

    /// The sealed transition, carrying the path and the envelope to write.
    pub fn pending(&self) -> (r: &PendingLock)
        ensures
            *r == self.spec_lock(),
    {
        &self.lock
    }
}

/// The outcome of starting to close one alias.
pub enum LockFileStep {
    /// No file is open under the alias; the registry is unchanged.
    NotFound,
    /// Sealing failed; the entry is still in the registry, data intact.
    Failed(CryptFileError),
    /// The entry left the registry; the caller must write the envelope and
    /// report back through `lock_file_finish`.
    Sealed(PendingSession),
}

/// Removing entry `i` from a well-formed session table: its key vanishes,
/// every other lookup is unchanged, and well-formedness is kept.
proof fn lemma_sessions_remove(
    olds: Seq<(Seq<char>, (String, CryptFile<UnlockedFile>))>,
    i: int,
)
    requires
        unique_keys(olds),
        forall|j: int| 0 <= j < olds.len() ==> (#[trigger] olds[j]).1.1.wf(),
        0 <= i < olds.len(),
    ensures
        ({
            let middle = olds.remove(i);
            &&& unique_keys(middle)
            &&& forall|j: int| 0 <= j < middle.len() ==> (#[trigger] middle[j]).1.1.wf()
            &&& forall|j: int| 0 <= j < middle.len() ==> (#[trigger] middle[j]).0 != olds[i].0
            &&& entries_get(middle, olds[i].0) is None
            &&& forall|q: Seq<char>|
                q != olds[i].0 ==> entries_get(middle, q) == entries_get(olds, q)
        }),
{
    let middle = olds.remove(i);
    assert forall|j: int| 0 <= j < middle.len() implies (#[trigger] middle[j]).0 != olds[i].0
        && middle[j].1.1.wf() by {
        if j < i {
            assert(middle[j] == olds[j]);
        } else {
            assert(middle[j] == olds[j + 1]);
        }
    }
    lemma_entries_get_absent(middle, olds[i].0);
    assert forall|q: Seq<char>| q != olds[i].0 implies entries_get(middle, q) == entries_get(
        olds,
        q,
    ) by {
        lemma_entries_get_remove(olds, i, q);
    }
}

/// Appending an entry whose key is absent from a well-formed session table:
/// the new key is bound to the new entry, every other lookup is unchanged,
/// and well-formedness is kept.
proof fn lemma_sessions_insert(
    middle: Seq<(Seq<char>, (String, CryptFile<UnlockedFile>))>,
    key: Seq<char>,
    entry: (String, CryptFile<UnlockedFile>),
)
    requires
        unique_keys(middle),
        forall|j: int| 0 <= j < middle.len() ==> (#[trigger] middle[j]).1.1.wf(),
        forall|j: int| 0 <= j < middle.len() ==> (#[trigger] middle[j]).0 != key,
        entry.1.wf(),
    ensures
        ({
            let pushed = middle.push((key, entry));
            &&& unique_keys(pushed)
            &&& forall|j: int| 0 <= j < pushed.len() ==> (#[trigger] pushed[j]).1.1.wf()
            &&& entries_get(pushed, key) == Some(entry)
            &&& forall|q: Seq<char>|
                q != key ==> entries_get(pushed, q) == entries_get(middle, q)
        }),
{
    let pushed = middle.push((key, entry));
    lemma_entries_get_absent(middle, key);
    lemma_entries_get_push(middle, key, entry, key);
    assert forall|q: Seq<char>| q != key implies entries_get(pushed, q) == entries_get(
        middle,
        q,
    ) by {
        lemma_entries_get_push(middle, key, entry, q);
    }
    assert forall|a2: int, b2: int|
        0 <= a2 < b2 < pushed.len() implies pushed[a2].0 != pushed[b2].0 by {
        if b2 < middle.len() {
            assert(pushed[a2] == middle[a2] && pushed[b2] == middle[b2]);
        } else {
            assert(pushed[a2] == middle[a2] && pushed[b2].0 == key);
        }
    }
    assert forall|j: int| 0 <= j < pushed.len() implies (#[trigger] pushed[j]).1.1.wf() by {
        if j < middle.len() {
            assert(pushed[j] == middle[j]);
        }
    }
}

/// Drives a [`ReplDriver`] and tracks the files opened by alias.
pub struct Repl<D> {
    driver: D,
    open_files: Vec<(String, (String, CryptFile<UnlockedFile>))>,
}

impl<D> Repl<D> {
    /// The sessions held, keyed by alias view.
    pub closed spec fn spec_sessions(self) -> Seq<
        (Seq<char>, (String, CryptFile<UnlockedFile>)),
    > {
        self.open_files@.map_values(
            |e: (String, (String, CryptFile<UnlockedFile>))| (e.0@, e.1),
        )
    }

    pub closed spec fn spec_driver(self) -> D {
        self.driver
    }

    /// Aliases are unique and every open file's mapping has unique keys.
    pub open spec fn wf(self) -> bool {
        unique_keys(self.spec_sessions()) && forall|i: int|
            0 <= i < self.spec_sessions().len() ==> (
            #[trigger] self.spec_sessions()[i]).1.1.wf()
    }

    /// The entry open under `alias`, if any: the password it was opened
    /// with, and the Unlocked file.
    pub open spec fn spec_session(self, alias: Seq<char>) -> Option<
        (String, CryptFile<UnlockedFile>),
    > {
        entries_get(self.spec_sessions(), alias)
    }

    pub open spec fn spec_open_count(self) -> nat {
        self.spec_sessions().len()
    }

    /// Position of the entry for `alias`, if any.
    fn position(&self, alias: &str) -> (r: Option<usize>)
        ensures
            match r {
                Some(i) => i < self.spec_sessions().len() && self.spec_sessions()[i as int].0
                    == alias@ && (forall|j: int|
                    0 <= j < i ==> self.spec_sessions()[j].0 != alias@),
                None => forall|j: int|
                    0 <= j < self.spec_sessions().len() ==> self.spec_sessions()[j].0 != alias@,
            },
    {
        let wanted = alias.to_owned();
        let n = self.open_files.len();
        let mut i: usize = 0;
        while i < n
            invariant
                n == self.spec_sessions().len(),
                i <= n,
                wanted@ == alias@,
                forall|j: int| 0 <= j < i ==> self.spec_sessions()[j].0 != alias@,
            decreases n - i,
        {
            proof {
                assert(self.spec_sessions()[i as int] == (self.open_files@[i as int].0@,
                self.open_files@[i as int].1));
            }
            if self.open_files[i].0 == wanted {
                return Some(i);
            }
            i = i + 1;
        }
        None
    }

    /// How many files are open.
    pub fn open_count(&self) -> (r: usize)
        ensures
            r == self.spec_open_count(),
    {
        self.open_files.len()
    }

    /// The open aliases, in registry order.
    pub fn open_aliases(&self) -> (r: Vec<String>)
        ensures
            r@.len() == self.spec_sessions().len(),
            forall|i: int|
                0 <= i < r@.len() ==> #[trigger] r@[i]@ == self.spec_sessions()[i].0,
    {
        let n = self.open_files.len();
        let mut out: Vec<String> = Vec::new();
        let mut i: usize = 0;
        while i < n
            invariant
                n == self.spec_sessions().len(),
                n == self.open_files@.len(),
                i <= n,
                out@.len() == i,
                forall|j: int| 0 <= j < i ==> #[trigger] out@[j]@ == self.spec_sessions()[j].0,
            decreases n - i,
        {
            proof {
                assert(self.spec_sessions()[i as int] == (self.open_files@[i as int].0@,
                self.open_files@[i as int].1));
            }
            out.push(self.open_files[i].0.clone());
            i = i + 1;
        }
        out
    }

    /// The path of the file open under `alias`, if any.
    pub fn open_filepath(&self, alias: &str) -> (r: Option<&String>)
        ensures
            match r {
                Some(p) => self.spec_session(alias@) matches Some(v) && p@
                    == v.1.spec_filepath(),
                None => self.spec_session(alias@) is None,
            },
    {
        match self.position(alias) {
            Some(i) => {
                proof {
                    lemma_entries_get_at(self.spec_sessions(), alias@, i as int);
                }
                Some(self.open_files[i].1.1.filepath())
            },
            None => {
                proof {
                    lemma_entries_get_absent(self.spec_sessions(), alias@);
                }
                None
            },
        }
    }

    /// Opens the file at `filepath` under `alias`, replacing any previous
    /// binding of the alias.  On failure the registry is unchanged.
    ///
    /// `contents` is what the caller read at the path; `None` (the path does
    /// not exist) always succeeds with an empty mapping.
    pub fn unlock_file(
        &mut self,
        alias: String,
        filepath: String,
        password: String,
        contents: Option<Vec<u8>>,
    ) -> (r: Result<(), CryptFileError>)
        requires
            old(self).wf(),
        ensures
            final(self).wf(),
            final(self).spec_driver() == old(self).spec_driver(),
            contents is None ==> r is Ok,
            r is Ok ==> (final(self).spec_session(alias@) matches Some(v) && v.0@ == password@
                && v.1.spec_filepath() == filepath@ && v.1.wf() && (contents is None
                ==> v.1.spec_data().spec_entries() == Seq::<(Seq<char>, Seq<char>)>::empty()) && (
            contents matches Some(b) ==> unlock_spec(password@, b@) == Some(
                v.1.spec_data().spec_entries(),
            ))),
            r is Ok ==> forall|q: Seq<char>|
                q != alias@ ==> final(self).spec_session(q) == old(self).spec_session(q),
            r matches Err(e) ==> final(self).spec_sessions() == old(self).spec_sessions() && !(e
                is Io),
            contents matches Some(b) ==> (unlock_spec(password@, b@) is Some ==> (r is Ok || r
                == Err::<(), CryptFileError>(
                CryptFileError::Encrypt(crypto::Error::KeyDerivation),
            ))),
            contents matches Some(b) ==> (password_ok(password@) && unlock_spec(password@, b@)
                is Some ==> r is Ok),
    {
        let file = CryptFile::new(filepath);
        let file = match file.unlock(password.as_str(), contents) {
            Ok(f) => f,
            Err(e) => {
                return Err(e);
            },
        };
        let ghost olds = self.spec_sessions();
        let ghost mut middle = olds;
        match self.position(alias.as_str()) {
            Some(i) => {
                self.open_files.remove(i);
                proof {
                    lemma_sessions_remove(olds, i as int);
                    middle = olds.remove(i as int);
                    assert(self.spec_sessions() =~= middle);
                }
            },
            None => {},
        }
        let ghost a = alias@;
        let ghost entry = (password, file);
        self.open_files.push((alias, (password, file)));
        proof {
            assert(forall|j: int| 0 <= j < middle.len() ==> #[trigger] middle[j].0 != a);
            lemma_sessions_insert(middle, a, entry);
            assert(self.spec_sessions() =~= middle.push((a, entry)));
        }
        Ok(())
    }

    /// Starts closing `alias`: removes the entry and seals its mapping.
    ///
    /// On sealing failure the entry stays in the registry with its data
    /// intact.  On success the caller must write the envelope and call
    /// [`lock_file_finish`](Repl::lock_file_finish).
    pub fn lock_file_begin(&mut self, alias: &str) -> (r: LockFileStep)
        requires
            old(self).wf(),
        ensures
            final(self).wf(),
            final(self).spec_driver() == old(self).spec_driver(),
            r is NotFound <==> old(self).spec_session(alias@) is None,
            r is NotFound ==> final(self).spec_sessions() == old(self).spec_sessions(),
            r matches LockFileStep::Failed(e) ==> e == CryptFileError::Encrypt(crypto::Error::KeyDerivation)
                && (forall|q: Seq<char>|
                final(self).spec_session(q) == old(self).spec_session(q)),
            old(self).spec_session(alias@) matches Some(v) ==> (password_ok(v.0@) ==> r
                is Sealed),
            r matches LockFileStep::Sealed(ps) ==> (ps.spec_alias() == alias@ && (old(self).spec_session(alias@)
                matches Some(v) && v.0@ == ps.spec_password() && v.1.spec_data()
                == ps.spec_lock().spec_data() && v.1.spec_filepath()
                == ps.spec_lock().spec_filepath()) && ps.spec_lock().spec_data().wf()
                && unlock_spec(ps.spec_password(), ps.spec_lock().spec_envelope()) == Some(
                ps.spec_lock().spec_data().spec_entries(),
            ) && final(self).spec_session(alias@) is None && (forall|q: Seq<char>|
                q != alias@ ==> final(self).spec_session(q) == old(self).spec_session(q))),
    {
        let ghost olds = self.spec_sessions();
        match self.position(alias) {
            None => {
                proof {
                    lemma_entries_get_absent(olds, alias@);
                }
                LockFileStep::NotFound
            },
            Some(i) => {
                proof {
                    lemma_entries_get_at(olds, alias@, i as int);
                }
                let (alias_owned, (password, file)) = self.open_files.remove(i);
                let ghost middle = self.spec_sessions();
                proof {
                    lemma_sessions_remove(olds, i as int);
                    assert(middle =~= olds.remove(i as int));
                }
                match file.lock(password.as_str()) {
                    Ok(p) => LockFileStep::Sealed(
                        PendingSession { alias: alias_owned, password, lock: p },
                    ),
                    Err((file_back, e)) => {
                        let ghost entry = (password, file_back);
                        self.open_files.push((alias_owned, (password, file_back)));
                        proof {
                            lemma_sessions_insert(middle, alias@, entry);
                            assert(self.spec_sessions() =~= middle.push((alias@, entry)));
                            assert(entries_get(middle.push((alias@, entry)), alias@)
                                == entries_get(olds, alias@));
                        }
                        LockFileStep::Failed(e)
                    },
                }
            },
        }
    }

    /// Finishes closing an alias, given whether the envelope reached disk.
    ///
    /// On a failed write the entry is reinserted under the same alias, its
    /// mapping intact, and the I/O error is returned.
    pub fn lock_file_finish(&mut self, session: PendingSession, write_ok: bool) -> (r: Option<
        CryptFileError,
    >)
        requires
            old(self).wf(),
            old(self).spec_session(session.spec_alias()) is None,
            session.spec_lock().spec_data().wf(),
        ensures
            final(self).wf(),
            final(self).spec_driver() == old(self).spec_driver(),
            write_ok ==> r is None && final(self).spec_sessions() == old(self).spec_sessions(),
            !write_ok ==> (r == Some(CryptFileError::Io) && (final(self).spec_session(
                session.spec_alias(),
            ) matches Some(v) && v.0@ == session.spec_password() && v.1.spec_data()
                == session.spec_lock().spec_data() && v.1.spec_filepath()
                == session.spec_lock().spec_filepath()) && (forall|q: Seq<char>|
                q != session.spec_alias() ==> final(self).spec_session(q) == old(self).spec_session(q))),
    {
        if write_ok {
            None
        } else {
            let PendingSession { alias, password, lock } = session;
            let (file, err) = lock.abort();
            let ghost olds = self.spec_sessions();
            let ghost a = alias@;
            let ghost entry = (password, file);
            proof {
                crate::mapping::lemma_entries_get_none_keys(olds, a);
            }
            self.open_files.push((alias, (password, file)));
            proof {
                lemma_sessions_insert(olds, a, entry);
                assert(self.spec_sessions() =~= olds.push((a, entry)));
            }
            Some(err)
        }
    }
}

impl<D> Repl<D> {
    /// Looks up `key` in the mapping open under `alias`.
    pub fn data_get(&self, alias: &str, key: &str) -> (r: Option<&String>)
        ensures
            r matches Some(val) ==> (self.spec_session(alias@) matches Some(v)
                && v.1.spec_data().spec_get(key@) == Some(val@)),
            r is None ==> (self.spec_session(alias@) matches Some(v)
                ==> v.1.spec_data().spec_get(key@) is None),
    {
        match self.position(alias) {
            Some(i) => {
                proof {
                    lemma_entries_get_at(self.spec_sessions(), alias@, i as int);
                }
                self.open_files[i].1.1.data().get(key)
            },
            None => {
                proof {
                    lemma_entries_get_absent(self.spec_sessions(), alias@);
                }
                None
            },
        }
    }

    /// The key/value pairs open under `alias`, cloned out for display.
    pub fn data_entries(&self, alias: &str) -> (r: Option<Vec<(String, String)>>)
        ensures
            r matches Some(list) ==> (self.spec_session(alias@) matches Some(v) && list@.len()
                == v.1.spec_data().spec_len() && forall|i: int|
                0 <= i < list@.len() ==> (#[trigger] list@[i].0@, list@[i].1@)
                    == v.1.spec_data().spec_entries()[i]),
            r is None ==> self.spec_session(alias@) is None,
    {
        match self.position(alias) {
            Some(i) => {
                proof {
                    lemma_entries_get_at(self.spec_sessions(), alias@, i as int);
                }
                let pairs = self.open_files[i].1.1.data().entries();
                let n = pairs.len();
                let mut out: Vec<(String, String)> = Vec::new();
                let mut j: usize = 0;
                while j < n
                    invariant
                        n == pairs@.len(),
                        j <= n,
                        out@.len() == j,
                        forall|t: int|
                            0 <= t < pairs@.len() ==> (#[trigger] pairs@[t].0@, pairs@[t].1@)
                                == self.spec_sessions()[i as int].1.1.spec_data().spec_entries()[t],
                        i < self.spec_sessions().len(),
                        forall|t: int|
                            0 <= t < j ==> (#[trigger] out@[t].0@, out@[t].1@)
                                == self.spec_sessions()[i as int].1.1.spec_data().spec_entries()[t],
                    decreases n - j,
                {
                    out.push((pairs[j].0.clone(), pairs[j].1.clone()));
                    j = j + 1;
                }
                Some(out)
            },
            None => {
                proof {
                    lemma_entries_get_absent(self.spec_sessions(), alias@);
                }
                None
            },
        }
    }

    /// Binds `key` to `value` in the mapping open under `alias`; reports
    /// whether the alias was found.
    pub fn data_set(&mut self, alias: &str, key: String, value: String) -> (r: bool)
        requires
            old(self).wf(),
        ensures
            final(self).wf(),
            final(self).spec_driver() == old(self).spec_driver(),
            r == (old(self).spec_session(alias@) is Some),
            !r ==> final(self).spec_sessions() == old(self).spec_sessions(),
            r ==> (old(self).spec_session(alias@) matches Some(v) && (final(self).spec_session(
                alias@,
            ) matches Some(w) && w.0 == v.0 && w.1.spec_filepath() == v.1.spec_filepath()
                && w.1.spec_data().spec_get(key@) == Some(value@) && (forall|k2: Seq<char>|
                k2 != key@ ==> w.1.spec_data().spec_get(k2) == v.1.spec_data().spec_get(k2)))),
            r ==> forall|q: Seq<char>|
                q != alias@ ==> final(self).spec_session(q) == old(self).spec_session(q),
    {
        let ghost olds = self.spec_sessions();
        match self.position(alias) {
            None => {
                proof {
                    lemma_entries_get_absent(olds, alias@);
                }
                false
            },
            Some(i) => {
                proof {
                    lemma_entries_get_at(olds, alias@, i as int);
                }
                let (alias_owned, (password, mut file)) = self.open_files.remove(i);
                let ghost middle = self.spec_sessions();
                proof {
                    lemma_sessions_remove(olds, i as int);
                    assert(middle =~= olds.remove(i as int));
                }
                file.data_mut().set(key, value);
                let ghost entry = (password, file);
                self.open_files.push((alias_owned, (password, file)));
                proof {
                    lemma_sessions_insert(middle, alias@, entry);
                    assert(self.spec_sessions() =~= middle.push((alias@, entry)));
                }
                true
            },
        }
    }

    /// Deletes `key` from the mapping open under `alias`; reports whether
    /// the alias was found.
    pub fn data_delete(&mut self, alias: &str, key: &str) -> (r: bool)
        requires
            old(self).wf(),
        ensures
            final(self).wf(),
            final(self).spec_driver() == old(self).spec_driver(),
            r == (old(self).spec_session(alias@) is Some),
            !r ==> final(self).spec_sessions() == old(self).spec_sessions(),
            r ==> (old(self).spec_session(alias@) matches Some(v) && (final(self).spec_session(
                alias@,
            ) matches Some(w) && w.0 == v.0 && w.1.spec_filepath() == v.1.spec_filepath()
                && w.1.spec_data().spec_get(key@) is None && (forall|k2: Seq<char>|
                k2 != key@ ==> w.1.spec_data().spec_get(k2) == v.1.spec_data().spec_get(k2)))),
            r ==> forall|q: Seq<char>|
                q != alias@ ==> final(self).spec_session(q) == old(self).spec_session(q),
    {
        let ghost olds = self.spec_sessions();
        match self.position(alias) {
            None => {
                proof {
                    lemma_entries_get_absent(olds, alias@);
                }
                false
            },
            Some(i) => {
                proof {
                    lemma_entries_get_at(olds, alias@, i as int);
                }
                let (alias_owned, (password, mut file)) = self.open_files.remove(i);
                let ghost middle = self.spec_sessions();
                proof {
                    lemma_sessions_remove(olds, i as int);
                    assert(middle =~= olds.remove(i as int));
                }
                file.data_mut().remove(key);
                let ghost entry = (password, file);
                self.open_files.push((alias_owned, (password, file)));
                proof {
                    lemma_sessions_insert(middle, alias@, entry);
                    assert(self.spec_sessions() =~= middle.push((alias@, entry)));
                }
                true
            },
        }
    }
}

impl<D> Repl<D> {
    /// Starts closing every open file: best-effort, not all-or-nothing.
    ///
    /// Each entry is sealed independently.  Entries whose sealing fails stay
    /// in the registry, data intact, and are reported; the rest leave the
    /// registry as [`PendingSession`]s whose envelopes the caller must write
    /// before calling [`lock_all_finish`](Repl::lock_all_finish).
    #[verifier::rlimit(100)]
    pub fn lock_all_begin(&mut self) -> (r: (Vec<PendingSession>, Vec<(String, CryptFileError)>))
        requires
            old(self).wf(),
        ensures
            final(self).wf(),
            final(self).spec_driver() == old(self).spec_driver(),
            forall|i: int|
                0 <= i < r.0@.len() ==> (old(self).spec_session(
                    (#[trigger] r.0@[i]).spec_alias(),
                ) matches Some(v) && v.0@ == r.0@[i].spec_password() && v.1.spec_data()
                    == r.0@[i].spec_lock().spec_data() && v.1.spec_filepath()
                    == r.0@[i].spec_lock().spec_filepath()) && r.0@[i].spec_lock().spec_data().wf()
                    && unlock_spec(r.0@[i].spec_password(), r.0@[i].spec_lock().spec_envelope())
                    == Some(r.0@[i].spec_lock().spec_data().spec_entries()) && final(self).spec_session(r.0@[i].spec_alias()) is None,
            forall|i: int, j: int|
                0 <= i < j < r.0@.len() ==> r.0@[i].spec_alias() != r.0@[j].spec_alias(),
            forall|i: int|
                0 <= i < r.1@.len() ==> (#[trigger] r.1@[i]).1 == CryptFileError::Encrypt(
                    crypto::Error::KeyDerivation,
                ) && final(self).spec_session(r.1@[i].0@) == old(self).spec_session(r.1@[i].0@)
                    && final(self).spec_session(r.1@[i].0@) is Some,
            forall|q: Seq<char>|
                final(self).spec_session(q) is Some ==> final(self).spec_session(q) == old(self).spec_session(q),
            forall|q: Seq<char>|
                old(self).spec_session(q) is Some && final(self).spec_session(q) is None
                    ==> exists|i: int|
                    0 <= i < r.0@.len() && (#[trigger] r.0@[i]).spec_alias() == q,
            forall|q: Seq<char>|
                old(self).spec_session(q) is Some && final(self).spec_session(q) is Some
                    ==> exists|i: int| 0 <= i < r.1@.len() && (#[trigger] r.1@[i]).0@ == q,
            forall|q: Seq<char>|
                (old(self).spec_session(q) matches Some(v) && password_ok(v.0@)) ==> final(self).spec_session(q) is None,
    {
        let aliases = self.open_aliases();
        let ghost olds = self.spec_sessions();
        proof {
            assert forall|j: int| 0 <= j < aliases@.len() implies #[trigger] entries_get(
                olds,
                aliases@[j]@,
            ) == Some(olds[j].1) by {
                lemma_entries_get_at(olds, aliases@[j]@, j);
            }
            assert forall|q: Seq<char>| entries_get(olds, q) is Some implies exists|j: int|
                0 <= j < aliases@.len() && #[trigger] aliases@[j]@ == q by {
                crate::mapping::lemma_entries_get_some_at(olds, q);
                let j = choose|j: int|
                    0 <= j < olds.len() && #[trigger] olds[j].0 == q && entries_get(olds, q)
                        == Some(olds[j].1);
                assert(aliases@[j]@ == q);
            }
        }
        let n = aliases.len();
        let mut pendings: Vec<PendingSession> = Vec::new();
        let mut failures: Vec<(String, CryptFileError)> = Vec::new();
        let mut k: usize = 0;
        while k < n
            invariant
                self.wf(),
                self.spec_driver() == old(self).spec_driver(),
                n == aliases@.len(),
                k <= n,
                forall|i: int, j: int| 0 <= i < j < n ==> aliases@[i]@ != aliases@[j]@,
                forall|j: int|
                    0 <= j < n ==> old(self).spec_session(#[trigger] aliases@[j]@) is Some,
                forall|q: Seq<char>|
                    old(self).spec_session(q) is Some ==> exists|j: int|
                        0 <= j < n && #[trigger] aliases@[j]@ == q,
                forall|j: int|
                    k <= j < n ==> self.spec_session(#[trigger] aliases@[j]@) == old(self).spec_session(aliases@[j]@),
                forall|i: int|
                    0 <= i < pendings@.len() ==> (old(self).spec_session(
                        (#[trigger] pendings@[i]).spec_alias(),
                    ) matches Some(v) && v.0@ == pendings@[i].spec_password() && v.1.spec_data()
                        == pendings@[i].spec_lock().spec_data() && v.1.spec_filepath()
                        == pendings@[i].spec_lock().spec_filepath())
                        && pendings@[i].spec_lock().spec_data().wf() && unlock_spec(
                        pendings@[i].spec_password(),
                        pendings@[i].spec_lock().spec_envelope(),
                    ) == Some(pendings@[i].spec_lock().spec_data().spec_entries()) && self
                        .spec_session(pendings@[i].spec_alias()) is None,
                forall|i: int, j: int|
                    0 <= i < j < pendings@.len() ==> pendings@[i].spec_alias()
                        != pendings@[j].spec_alias(),
                forall|i: int|
                    0 <= i < failures@.len() ==> (#[trigger] failures@[i]).1
                        == CryptFileError::Encrypt(crypto::Error::KeyDerivation) && self
                        .spec_session(failures@[i].0@) == old(self).spec_session(failures@[i].0@)
                        && self.spec_session(failures@[i].0@) is Some,
                forall|i: int|
                    0 <= i < failures@.len() ==> exists|j: int|
                        0 <= j < k && (#[trigger] failures@[i]).0@ == aliases@[j]@,
                forall|q: Seq<char>|
                    self.spec_session(q) is Some ==> self.spec_session(q) == old(self).spec_session(q),
                forall|j: int|
                    0 <= j < k && self.spec_session(#[trigger] aliases@[j]@) is None ==> exists|
                        i: int,
                    |
                        0 <= i < pendings@.len() && (#[trigger] pendings@[i]).spec_alias()
                            == aliases@[j]@,
                forall|j: int|
                    0 <= j < k && self.spec_session(#[trigger] aliases@[j]@) is Some ==> exists|
                        i: int,
                    |
                        0 <= i < failures@.len() && (#[trigger] failures@[i]).0@
                            == aliases@[j]@,
                forall|j: int|
                    0 <= j < k ==> ((old(self).spec_session(#[trigger] aliases@[j]@)
                        matches Some(v) && password_ok(v.0@)) ==> self.spec_session(
                        aliases@[j]@,
                    ) is None),
            decreases n - k,
        {
            let ghost pre = *self;
            let ghost op = pendings@;
            let ghost of = failures@;
            let alias = &aliases[k];
            match self.lock_file_begin(alias.as_str()) {
                LockFileStep::NotFound => {
                    proof {
                        assert(false);
                    }
                },
                LockFileStep::Failed(e) => {
                    failures.push((alias.clone(), e));
                    proof {
                        assert(failures@[of.len() as int].0@ == aliases@[k as int]@);
                        assert forall|j: int|
                            0 <= j < k + 1 && self.spec_session(#[trigger] aliases@[j]@)
                            is Some implies exists|i: int|
                            0 <= i < failures@.len() && (#[trigger] failures@[i]).0@
                                == aliases@[j]@ by {
                            if j == k {
                                assert(failures@[of.len() as int].0@ == aliases@[j]@);
                            } else {
                                let i0 = choose|i: int|
                                    0 <= i < of.len() && (#[trigger] of[i]).0@ == aliases@[j]@;
                                assert(failures@[i0].0@ == aliases@[j]@);
                            }
                        }
                    }
                },
                LockFileStep::Sealed(ps) => {
                    pendings.push(ps);
                    proof {
                        assert(pendings@[op.len() as int].spec_alias() == aliases@[k as int]@);
                        assert forall|j: int|
                            0 <= j < k + 1 && self.spec_session(#[trigger] aliases@[j]@)
                            is None implies exists|i: int|
                            0 <= i < pendings@.len() && (#[trigger] pendings@[i]).spec_alias()
                                == aliases@[j]@ by {
                            if j == k {
                                assert(pendings@[op.len() as int].spec_alias() == aliases@[j]@);
                            } else {
                                assert(aliases@[j]@ != aliases@[k as int]@);
                                assert(pre.spec_session(aliases@[j]@) is None);
                                let i0 = choose|i: int|
                                    0 <= i < op.len() && (#[trigger] op[i]).spec_alias()
                                        == aliases@[j]@;
                                assert(pendings@[i0].spec_alias() == aliases@[j]@);
                            }
                        }
                        assert forall|i: int|
                            0 <= i < failures@.len() implies self.spec_session(
                            (#[trigger] failures@[i]).0@,
                        ) == old(self).spec_session(failures@[i].0@) && self.spec_session(
                            failures@[i].0@,
                        ) is Some by {
                            let j0 = choose|j: int|
                                0 <= j < k && (#[trigger] failures@[i]).0@ == aliases@[j]@;
                            assert(aliases@[j0]@ != aliases@[k as int]@);
                        }
                    }
                },
            }
            k = k + 1;
        }
        proof {
            assert forall|q: Seq<char>|
                old(self).spec_session(q) is Some && self.spec_session(q)
                    is None implies exists|i: int|
                0 <= i < pendings@.len() && (#[trigger] pendings@[i]).spec_alias() == q by {
                let j = choose|j: int| 0 <= j < n && #[trigger] aliases@[j]@ == q;
            }
            assert forall|q: Seq<char>|
                old(self).spec_session(q) is Some && self.spec_session(q)
                    is Some implies exists|i: int|
                0 <= i < failures@.len() && (#[trigger] failures@[i]).0@ == q by {
                let j = choose|j: int| 0 <= j < n && #[trigger] aliases@[j]@ == q;
            }
            assert forall|q: Seq<char>|
                (old(self).spec_session(q) matches Some(v) && password_ok(
                    v.0@,
                )) implies self.spec_session(q) is None by {
                let j = choose|j: int| 0 <= j < n && #[trigger] aliases@[j]@ == q;
            }
        }
        (pendings, failures)
    }


    /// Finishes a bulk close, given each write's outcome, in the order the
    /// sessions were handed out.
    ///
    /// Entries whose writes succeeded stay out of the registry; the rest are
    /// reinserted intact, and the report names exactly those, each with the
    /// I/O error.
    #[verifier::rlimit(100)]
    pub fn lock_all_finish(&mut self, sessions: Vec<PendingSession>, results: Vec<bool>) -> (r:
        Vec<(String, CryptFileError)>)
        requires
            old(self).wf(),
            results@.len() == sessions@.len(),
            forall|i: int, j: int|
                0 <= i < j < sessions@.len() ==> sessions@[i].spec_alias()
                    != sessions@[j].spec_alias(),
            forall|i: int|
                0 <= i < sessions@.len() ==> old(self).spec_session(
                    (#[trigger] sessions@[i]).spec_alias(),
                ) is None,
            forall|i: int|
                0 <= i < sessions@.len() ==> (#[trigger] sessions@[i]).spec_lock().spec_data().wf(),
        ensures
            final(self).wf(),
            final(self).spec_driver() == old(self).spec_driver(),
            forall|i: int|
                0 <= i < sessions@.len() && !results@[i] ==> (final(self).spec_session(
                    (#[trigger] sessions@[i]).spec_alias(),
                ) matches Some(v) && v.0@ == sessions@[i].spec_password() && v.1.spec_data()
                    == sessions@[i].spec_lock().spec_data() && v.1.spec_filepath()
                    == sessions@[i].spec_lock().spec_filepath()),
            forall|i: int|
                0 <= i < sessions@.len() && results@[i] ==> final(self).spec_session(
                    (#[trigger] sessions@[i]).spec_alias(),
                ) is None,
            forall|q: Seq<char>|
                (forall|i: int|
                    0 <= i < sessions@.len() ==> (#[trigger] sessions@[i]).spec_alias() != q)
                    ==> final(self).spec_session(q) == old(self).spec_session(q),
            forall|j: int|
                0 <= j < r@.len() ==> (#[trigger] r@[j]).1 == CryptFileError::Io && exists|i: int|
                    0 <= i < sessions@.len() && !results@[i] && (#[trigger] sessions@[i]).spec_alias()
                        == r@[j].0@,
            forall|i: int|
                0 <= i < sessions@.len() && !results@[i] ==> exists|j: int|
                    0 <= j < r@.len() && (#[trigger] r@[j]).0@ == sessions@[i].spec_alias(),
    {
        let ghost all = sessions@;
        let mut sessions = sessions;
        let mut report: Vec<(String, CryptFileError)> = Vec::new();
        let mut k = sessions.len();
        while k > 0
            invariant
                old(self).wf(),
                self.wf(),
                self.spec_driver() == old(self).spec_driver(),
                results@.len() == all.len(),
                k == sessions@.len(),
                k <= all.len(),
                sessions@ == all.subrange(0, k as int),
                forall|i: int, j: int|
                    0 <= i < j < all.len() ==> all[i].spec_alias() != all[j].spec_alias(),
                forall|i: int|
                    0 <= i < all.len() ==> (#[trigger] all[i]).spec_lock().spec_data().wf(),
                forall|i: int|
                    0 <= i < k ==> self.spec_session((#[trigger] all[i]).spec_alias()) is None,
                forall|i: int|
                    k <= i < all.len() && !results@[i] ==> (self.spec_session(
                        (#[trigger] all[i]).spec_alias(),
                    ) matches Some(v) && v.0@ == all[i].spec_password() && v.1.spec_data()
                        == all[i].spec_lock().spec_data() && v.1.spec_filepath()
                        == all[i].spec_lock().spec_filepath()),
                forall|i: int|
                    k <= i < all.len() && results@[i] ==> self.spec_session(
                        (#[trigger] all[i]).spec_alias(),
                    ) is None,
                forall|q: Seq<char>|
                    (forall|i: int| 0 <= i < all.len() ==> (#[trigger] all[i]).spec_alias() != q)
                        ==> self.spec_session(q) == old(self).spec_session(q),
                forall|j: int|
                    0 <= j < report@.len() ==> (#[trigger] report@[j]).1 == CryptFileError::Io
                        && exists|i: int|
                        k <= i < all.len() && !results@[i] && (#[trigger] all[i]).spec_alias()
                            == report@[j].0@,
                forall|i: int|
                    k <= i < all.len() && !results@[i] ==> exists|j: int|
                        0 <= j < report@.len() && (#[trigger] report@[j]).0@
                            == all[i].spec_alias(),
            decreases k,
        {
            let session = match sessions.pop() {
                Some(s) => s,
                None => {
                    proof {
                        assert(false);
                    }
                    return report;
                },
            };
            k = k - 1;
            proof {
                assert(session == all[k as int]);
            }
            let alias_text = session.alias().clone();
            let ok = *vstd::slice::slice_index_get(results.as_slice(), k);
            let ghost orep = report@;
            match self.lock_file_finish(session, ok) {
                None => {},
                Some(e) => {
                    report.push((alias_text, e));
                    proof {
                        assert(report@[orep.len() as int].0@ == all[k as int].spec_alias());
                        assert forall|i: int|
                            k <= i < all.len() && !results@[i] implies exists|j: int|
                            0 <= j < report@.len() && (#[trigger] report@[j]).0@
                                == all[i].spec_alias() by {
                            if i == k {
                                assert(report@[orep.len() as int].0@ == all[i].spec_alias());
                            } else {
                                let j0 = choose|j: int|
                                    0 <= j < orep.len() && (#[trigger] orep[j]).0@
                                        == all[i].spec_alias();
                                assert(report@[j0].0@ == all[i].spec_alias());
                            }
                        }
                    }
                },
            }
        }
        report
    }
}

impl<D: ReplDriver> Repl<D> {
    /// Creates a [`Repl`] with `driver` and no open files.
    pub fn new(driver: D) -> (r: Self)
        ensures
            r.wf(),
            r.spec_open_count() == 0,
            r.spec_driver() == driver,
            forall|q: Seq<char>| r.spec_session(q) is None,
    {
        let r = Repl { driver, open_files: Vec::new() };
        proof {
            assert(r.spec_sessions() =~= Seq::<
                (Seq<char>, (String, CryptFile<UnlockedFile>)),
            >::empty());
            assert forall|q: Seq<char>| r.spec_session(q) is None by {
                lemma_entries_get_absent(r.spec_sessions(), q);
            }
        }
        r
    }

    /// The driver, for the embedder to prompt and print through.
    pub fn driver_mut(&mut self) -> (r: &mut D)
        ensures
            *r == old(self).spec_driver(),
            final(self).spec_driver() == *final(r),
            final(self).spec_sessions() == old(self).spec_sessions(),
    {
        &mut self.driver
    }

    /// Prints REPL commands and usage.
    pub fn print_usage(&mut self)
        ensures
            final(self).spec_sessions() == old(self).spec_sessions(),
            final(self).wf() == old(self).wf(),
    {
        self.driver.print(USAGE_TEXT);
    }
}

} // verus!
