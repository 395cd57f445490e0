//! The plaintext payload a user manipulates: an unordered collection of
//! string key/value pairs with unique keys, together with its deterministic,
//! round-trippable byte encoding.
//!
//! The encoding is `count (u64 LE)` followed, for each pair, by the UTF-8
//! bytes of key and value, each prefixed with its byte length as `u64 LE`.

use crate::bytesutil::{append_bytes, sub_bytes};
use vstd::bytes::{
    lemma_auto_spec_u64_to_from_le_bytes,
    spec_u64_to_le_bytes,
    u64_from_le_bytes,
    u64_to_le_bytes,
};
use vstd::prelude::*;
use vstd::string::StrSliceExecFns;
use vstd::utf8::{decode_utf8, encode_utf8, encode_utf8_decode_utf8, encode_utf8_valid_utf8, valid_utf8};

verus! {

/// First-match lookup in a sequence of key/value pairs.
pub open spec fn entries_get<V>(s: Seq<(Seq<char>, V)>, key: Seq<char>) -> Option<V>
    decreases s.len(),
{
    if s.len() == 0 {
        None
    } else if s[0].0 == key {
        Some(s[0].1)
    } else {
        entries_get(s.drop_first(), key)
    }
}

/// Keys occur at most once.
pub open spec fn unique_keys<V>(s: Seq<(Seq<char>, V)>) -> bool {
    forall|i: int, j: int| 0 <= i < j < s.len() ==> s[i].0 != s[j].0
}

pub proof fn lemma_entries_get_at<V>(s: Seq<(Seq<char>, V)>, key: Seq<char>, i: int)
    requires
        0 <= i < s.len(),
        s[i].0 == key,
        forall|j: int| 0 <= j < i ==> s[j].0 != key,
    ensures
        entries_get(s, key) == Some(s[i].1),
    decreases i,
{
    if i > 0 {
        lemma_entries_get_at(s.drop_first(), key, i - 1);
    }
}

pub proof fn lemma_entries_get_absent<V>(s: Seq<(Seq<char>, V)>, key: Seq<char>)
    requires
        forall|j: int| 0 <= j < s.len() ==> s[j].0 != key,
    ensures
        entries_get(s, key) is None,
    decreases s.len(),
{
    if s.len() > 0 {
        lemma_entries_get_absent(s.drop_first(), key);
    }
}

pub proof fn lemma_entries_get_remove<V>(s: Seq<(Seq<char>, V)>, i: int, q: Seq<char>)
    requires
        0 <= i < s.len(),
        q != s[i].0,
    ensures
        entries_get(s.remove(i), q) == entries_get(s, q),
    decreases i,
{
    if s.len() > 0 {
        if i == 0 {
            assert(s.remove(0) =~= s.drop_first());
        } else {
            assert(s.remove(i).drop_first() =~= s.drop_first().remove(i - 1));
            lemma_entries_get_remove(s.drop_first(), i - 1, q);
        }
    }
}

pub proof fn lemma_entries_get_push<V>(s: Seq<(Seq<char>, V)>, k: Seq<char>, v: V, q: Seq<char>)
    ensures
        entries_get(s.push((k, v)), q) == if entries_get(s, q) is Some {
            entries_get(s, q)
        } else if q == k {
            Some(v)
        } else {
            None::<V>
        },
    decreases s.len(),
{
    if s.len() == 0 {
        assert(s.push((k, v)).drop_first() =~= Seq::<(Seq<char>, V)>::empty());
    } else {
        assert(s.push((k, v)).drop_first() =~= s.drop_first().push((k, v)));
        lemma_entries_get_push(s.drop_first(), k, v, q);
    }
}

/// An absent key occurs at no index.
pub proof fn lemma_entries_get_none_keys<V>(s: Seq<(Seq<char>, V)>, key: Seq<char>)
    requires
        entries_get(s, key) is None,
    ensures
        forall|j: int| 0 <= j < s.len() ==> s[j].0 != key,
    decreases s.len(),
{
    if s.len() > 0 {
        lemma_entries_get_none_keys(s.drop_first(), key);
        assert forall|j: int| 0 <= j < s.len() implies s[j].0 != key by {
            if j > 0 {
                assert(s.drop_first()[j - 1] == s[j]);
            }
        }
    }
}

/// A found binding sits at some index; under unique keys, at exactly one.
pub proof fn lemma_entries_get_some_at<V>(s: Seq<(Seq<char>, V)>, key: Seq<char>)
    requires
        entries_get(s, key) is Some,
    ensures
        exists|i: int|
            0 <= i < s.len() && #[trigger] s[i].0 == key && entries_get(s, key) == Some(s[i].1),
    decreases s.len(),
{
    if s.len() > 0 {
        if s[0].0 == key {
            assert(s[0].0 == key && entries_get(s, key) == Some(s[0].1));
        } else {
            lemma_entries_get_some_at(s.drop_first(), key);
            let j = choose|j: int|
                0 <= j < s.drop_first().len() && #[trigger] s.drop_first()[j].0 == key
                    && entries_get(s.drop_first(), key) == Some(s.drop_first()[j].1);
            assert(s[j + 1].0 == key && entries_get(s, key) == Some(s[j + 1].1));
        }
    }
}

/// An unordered mapping from text keys to text values, keys unique.
#[derive(Debug)]
pub struct SecretMapping {
    entries: Vec<(String, String)>,
}

impl SecretMapping {
    /// The key/value pairs held, in storage order.
    pub closed spec fn spec_entries(self) -> Seq<(Seq<char>, Seq<char>)> {
        self.entries@.map_values(|e: (String, String)| (e.0@, e.1@))
    }

    /// Every key occurs at most once.
    pub open spec fn wf(self) -> bool {
        unique_keys(self.spec_entries())
    }

    /// The value bound to `key`, if any.
    pub open spec fn spec_get(self, key: Seq<char>) -> Option<Seq<char>> {
        entries_get(self.spec_entries(), key)
    }

    pub open spec fn spec_len(self) -> nat {
        self.spec_entries().len()
    }

    /// Creates an empty mapping.
    pub fn new() -> (r: SecretMapping)
        ensures
            r.wf(),
            r.spec_entries() == Seq::<(Seq<char>, Seq<char>)>::empty(),
    {
        let r = SecretMapping { entries: Vec::new() };
        proof {
            assert(r.spec_entries() =~= Seq::<(Seq<char>, Seq<char>)>::empty());
        }
        r
    }

    pub fn len(&self) -> (r: usize)
        ensures
            r == self.spec_len(),
    {
        self.entries.len()
    }

    /// Read-only access to the stored pairs.
    pub fn entries(&self) -> (r: &Vec<(String, String)>)
        ensures
            r@.len() == self.spec_len(),
            forall|i: int|
                0 <= i < r@.len() ==> (#[trigger] r@[i].0@, r@[i].1@) == self.spec_entries()[i],
    {
        &self.entries
    }

    /// Looks up the value bound to `key`.
    pub fn get(&self, key: &str) -> (r: Option<&String>)
        ensures
            match r {
                Some(v) => self.spec_get(key@) == Some(v@),
                None => self.spec_get(key@) is None,
            },
    {
        let wanted = key.to_owned();
        let n = self.entries.len();
        let mut i: usize = 0;
        while i < n
            invariant
                n == self.spec_entries().len(),
                i <= n,
                wanted@ == key@,
                forall|j: int| 0 <= j < i ==> self.spec_entries()[j].0 != key@,
            decreases n - i,
        {
            proof {
                assert(self.spec_entries()[i as int] == (self.entries@[i as int].0@,
                self.entries@[i as int].1@));
            }
            if self.entries[i].0 == wanted {
                proof {
                    lemma_entries_get_at(self.spec_entries(), key@, i as int);
                }
                return Some(&self.entries[i].1);
            }
            i = i + 1;
        }
        proof {
            lemma_entries_get_absent(self.spec_entries(), key@);
        }
        None
    }

    /// Position of the first pair whose key is `key`, if any.
    fn position(&self, key: &str) -> (r: Option<usize>)
        ensures
            match r {
                Some(i) => i < self.spec_entries().len() && self.spec_entries()[i as int].0
                    == key@ && (forall|j: int| 0 <= j < i ==> self.spec_entries()[j].0 != key@),
                None => forall|j: int|
                    0 <= j < self.spec_entries().len() ==> self.spec_entries()[j].0 != key@,
            },
    {
        let wanted = key.to_owned();
        let n = self.entries.len();
        let mut i: usize = 0;
        while i < n
            invariant
                n == self.spec_entries().len(),
                i <= n,
                wanted@ == key@,
                forall|j: int| 0 <= j < i ==> self.spec_entries()[j].0 != key@,
            decreases n - i,
        {
            proof {
                assert(self.spec_entries()[i as int] == (self.entries@[i as int].0@,
                self.entries@[i as int].1@));
            }
            if self.entries[i].0 == wanted {
                return Some(i);
            }
            i = i + 1;
        }
        None
    }

    /// Binds `key` to `value`, replacing any previous binding.
    pub fn set(&mut self, key: String, value: String)
        requires
            old(self).wf(),
        ensures
            final(self).wf(),
            final(self).spec_get(key@) == Some(value@),
            forall|q: Seq<char>| q != key@ ==> final(self).spec_get(q) == old(self).spec_get(q),
    {
        let ghost old_entries = self.spec_entries();
        let ghost mut middle = old_entries;
        match self.position(key.as_str()) {
            Some(i) => {
                self.entries.remove(i);
                proof {
                    middle = old_entries.remove(i as int);
                    assert(self.spec_entries() =~= middle);
                    assert forall|j: int| 0 <= j < middle.len() implies middle[j].0 != key@ by {
                        if j < i {
                            assert(middle[j] == old_entries[j]);
                        } else {
                            assert(middle[j] == old_entries[j + 1]);
                        }
                    }
                    assert forall|q: Seq<char>| q != key@ implies entries_get(middle, q)
                        == entries_get(old_entries, q) by {
                        lemma_entries_get_remove(old_entries, i as int, q);
                    }
                }
            },
            None => {
            },
        }
        let ghost k = key@;
        let ghost v = value@;
        self.entries.push((key, value));
        proof {
            assert(forall|j: int| 0 <= j < middle.len() ==> #[trigger] middle[j].0 != k);
            assert(self.spec_entries() =~= middle.push((k, v)));
            lemma_entries_get_absent(middle, k);
            lemma_entries_get_push(middle, k, v, k);
            assert forall|q: Seq<char>| q != k implies entries_get(middle.push((k, v)), q)
                == entries_get(old_entries, q) by {
                lemma_entries_get_push(middle, k, v, q);
            }
            let pushed = middle.push((k, v));
            assert forall|i: int, j: int|
                0 <= i < j < pushed.len() implies pushed[i].0 != pushed[j].0 by {
                if j < middle.len() {
                    assert(pushed[i] == middle[i] && pushed[j] == middle[j]);
                } else {
                    assert(pushed[i] == middle[i] && pushed[j].0 == k);
                }
            }
        }
    }

    /// Removes the binding for `key`; reports whether one existed.
    pub fn remove(&mut self, key: &str) -> (r: bool)
        requires
            old(self).wf(),
        ensures
            final(self).wf(),
            final(self).spec_get(key@) is None,
            forall|q: Seq<char>| q != key@ ==> final(self).spec_get(q) == old(self).spec_get(q),
            r == (old(self).spec_get(key@) is Some),
    {
        let ghost old_entries = self.spec_entries();
        match self.position(key) {
            Some(i) => {
                self.entries.remove(i);
                proof {
                    let middle = old_entries.remove(i as int);
                    assert(self.spec_entries() =~= middle);
                    assert forall|j: int| 0 <= j < middle.len() implies middle[j].0 != key@ by {
                        if j < i {
                            assert(middle[j] == old_entries[j]);
                        } else {
                            assert(middle[j] == old_entries[j + 1]);
                        }
                    }
                    lemma_entries_get_absent(middle, key@);
                    assert forall|q: Seq<char>| q != key@ implies entries_get(middle, q)
                        == entries_get(old_entries, q) by {
                        lemma_entries_get_remove(old_entries, i as int, q);
                    }
                    lemma_entries_get_at(old_entries, key@, i as int);
                }
                true
            },
            None => {
                proof {
                    lemma_entries_get_absent(old_entries, key@);
                }
                false
            },
        }
    }
}

/// A length-prefixed text field: the UTF-8 byte length as `u64 LE`, then the
/// bytes themselves.
pub open spec fn encode_str(s: Seq<char>) -> Seq<u8> {
    spec_u64_to_le_bytes(encode_utf8(s).len() as u64) + encode_utf8(s)
}

pub open spec fn encode_pair(k: Seq<char>, v: Seq<char>) -> Seq<u8> {
    encode_str(k) + encode_str(v)
}

pub open spec fn encode_entries(s: Seq<(Seq<char>, Seq<char>)>) -> Seq<u8>
    decreases s.len(),
{
    if s.len() == 0 {
        Seq::empty()
    } else {
        encode_pair(s[0].0, s[0].1) + encode_entries(s.drop_first())
    }
}

/// The byte encoding of a whole mapping.
pub open spec fn encode_payload(s: Seq<(Seq<char>, Seq<char>)>) -> Seq<u8> {
    spec_u64_to_le_bytes(s.len() as u64) + encode_entries(s)
}

/// The sizes a pair must stay under for its length prefixes to be faithful.
pub open spec fn bounded_pair(k: Seq<char>, v: Seq<char>) -> bool {
    encode_utf8(k).len() < 0x1_0000_0000_0000_0000 && encode_utf8(v).len()
        < 0x1_0000_0000_0000_0000
}

pub open spec fn entries_bounded(s: Seq<(Seq<char>, Seq<char>)>) -> bool {
    s.len() < 0x1_0000_0000_0000_0000 && forall|i: int|
        0 <= i < s.len() ==> bounded_pair(#[trigger] s[i].0, s[i].1)
}

/// Reads a `u64 LE` from the front of a buffer.
pub open spec fn take_u64(data: Seq<u8>) -> Option<(u64, Seq<u8>)> {
    if data.len() < 8 {
        None
    } else {
        Some((vstd::bytes::spec_u64_from_le_bytes(data.subrange(0, 8)), data.skip(8)))
    }
}

/// Reads one length-prefixed text field from the front of a buffer.
pub open spec fn take_str(data: Seq<u8>) -> Option<(Seq<char>, Seq<u8>)> {
    match take_u64(data) {
        None => None,
        Some((len, rest)) => if rest.len() < len {
            None
        } else {
            let bytes = rest.subrange(0, len as int);
            if valid_utf8(bytes) {
                Some((decode_utf8(bytes), rest.skip(len as int)))
            } else {
                None
            }
        },
    }
}

/// Reads exactly `n` pairs, requiring the buffer to end with the last one.
pub open spec fn decode_entries(data: Seq<u8>, n: nat) -> Option<Seq<(Seq<char>, Seq<char>)>>
    decreases n,
{
    if n == 0 {
        if data.len() == 0 {
            Some(Seq::empty())
        } else {
            None
        }
    } else {
        match take_str(data) {
            None => None,
            Some((k, r1)) => match take_str(r1) {
                None => None,
                Some((v, r2)) => match decode_entries(r2, (n - 1) as nat) {
                    None => None,
                    Some(tail) => Some(seq![(k, v)] + tail),
                },
            },
        }
    }
}

/// What a payload buffer decodes to: `None` when it is truncated, has
/// trailing bytes, holds invalid UTF-8, or repeats a key.
pub open spec fn decode_payload(data: Seq<u8>) -> Option<Seq<(Seq<char>, Seq<char>)>> {
    match take_u64(data) {
        None => None,
        Some((n, rest)) => match decode_entries(rest, n as nat) {
            None => None,
            Some(s) => if unique_keys(s) {
                Some(s)
            } else {
                None
            },
        },
    }
}

proof fn lemma_take_u64_prefix(x: u64, rest: Seq<u8>)
    ensures
        take_u64(spec_u64_to_le_bytes(x) + rest) == Some((x, rest)),
{
    lemma_auto_spec_u64_to_from_le_bytes();
    let data = spec_u64_to_le_bytes(x) + rest;
    assert(data.subrange(0, 8) =~= spec_u64_to_le_bytes(x));
    assert(data.skip(8) =~= rest);
}

proof fn lemma_take_str_prefix(s: Seq<char>, rest: Seq<u8>)
    requires
        encode_utf8(s).len() < 0x1_0000_0000_0000_0000,
    ensures
        take_str(encode_str(s) + rest) == Some((s, rest)),
{
    broadcast use encode_utf8_valid_utf8;
    broadcast use encode_utf8_decode_utf8;

    lemma_auto_spec_u64_to_from_le_bytes();
    let bytes = encode_utf8(s);
    let len = bytes.len() as u64;
    let data = encode_str(s) + rest;
    assert(data =~= spec_u64_to_le_bytes(len) + (bytes + rest));
    lemma_take_u64_prefix(len, bytes + rest);
    assert((bytes + rest).subrange(0, len as int) =~= bytes);
    assert((bytes + rest).skip(len as int) =~= rest);
}

proof fn lemma_decode_encode_entries(s: Seq<(Seq<char>, Seq<char>)>)
    requires
        forall|i: int| 0 <= i < s.len() ==> bounded_pair(#[trigger] s[i].0, s[i].1),
    ensures
        decode_entries(encode_entries(s), s.len()) == Some(s),
    decreases s.len(),
{
    if s.len() == 0 {
        assert(encode_entries(s) =~= Seq::<u8>::empty());
        assert(s =~= Seq::<(Seq<char>, Seq<char>)>::empty());
    } else {
        let k = s[0].0;
        let v = s[0].1;
        let tail = s.drop_first();
        let data = encode_entries(s);
        assert(data =~= encode_str(k) + (encode_str(v) + encode_entries(tail)));
        lemma_take_str_prefix(k, encode_str(v) + encode_entries(tail));
        lemma_take_str_prefix(v, encode_entries(tail));
        assert(forall|i: int|
            0 <= i < tail.len() ==> bounded_pair(#[trigger] tail[i].0, tail[i].1));
        lemma_decode_encode_entries(tail);
        assert(seq![(k, v)] + tail =~= s);
    }
}

/// Decoding inverts encoding: a bounded sequence of pairs with unique keys
/// comes back exactly from its payload bytes.
pub proof fn lemma_decode_encode(s: Seq<(Seq<char>, Seq<char>)>)
    requires
        unique_keys(s),
        entries_bounded(s),
    ensures
        decode_payload(encode_payload(s)) == Some(s),
{
    lemma_auto_spec_u64_to_from_le_bytes();
    lemma_take_u64_prefix(s.len() as u64, encode_entries(s));
    lemma_decode_encode_entries(s);
}

proof fn lemma_encode_entries_snoc(s: Seq<(Seq<char>, Seq<char>)>)
    requires
        s.len() > 0,
    ensures
        encode_entries(s) == encode_entries(s.drop_last()) + encode_pair(s.last().0, s.last().1),
    decreases s.len(),
{
    if s.len() == 1 {
        assert(s.drop_last() =~= Seq::<(Seq<char>, Seq<char>)>::empty());
        assert(s.drop_first() =~= Seq::<(Seq<char>, Seq<char>)>::empty());
        assert(encode_entries(s) =~= encode_entries(s.drop_last()) + encode_pair(
            s.last().0,
            s.last().1,
        ));
    } else {
        let rest = s.drop_first();
        lemma_encode_entries_snoc(rest);
        assert(rest.drop_last() =~= s.drop_last().drop_first());
        assert(rest.last() == s.last());
        assert(s.drop_last().len() > 0);
        assert(encode_entries(s.drop_last()) == encode_pair(s[0].0, s[0].1) + encode_entries(
            s.drop_last().drop_first(),
        ));
        assert(encode_entries(s) =~= encode_entries(s.drop_last()) + encode_pair(
            s.last().0,
            s.last().1,
        ));
    }
}

/// Relies on std's `String::from_utf8`: it succeeds exactly on valid UTF-8
/// and yields the characters those bytes encode.
#[verifier::external_body]
fn string_from_utf8(bytes: Vec<u8>) -> (r: Option<String>)
    ensures
        r matches Some(s) ==> valid_utf8(bytes@) && s@ == decode_utf8(bytes@),
        r is None ==> !valid_utf8(bytes@),
{
    match String::from_utf8(bytes) {
        Ok(s) => Some(s),
        Err(_) => None,
    }
}

/// Reads one length-prefixed text field at `pos`.
fn read_str(data: &[u8], pos: usize) -> (r: Option<(String, usize)>)
    requires
        pos <= data@.len(),
    ensures
        match r {
            Some(t) => pos + 8 <= t.1 <= data@.len() && take_str(data@.skip(pos as int))
                == Some((t.0@, data@.skip(t.1 as int))),
            None => take_str(data@.skip(pos as int)) is None,
        },
{
    proof {
        lemma_auto_spec_u64_to_from_le_bytes();
    }
    let remaining = data.len() - pos;
    if remaining < 8 {
        return None;
    }
    let header = sub_bytes(data, pos, pos + 8);
    let len64 = u64_from_le_bytes(header.as_slice());
    proof {
        assert(data@.skip(pos as int).subrange(0, 8) =~= data@.subrange(
            pos as int,
            pos as int + 8,
        ));
    }
    let avail: u64 = (remaining - 8) as u64;
    if avail < len64 {
        proof {
            assert(data@.skip(pos as int).skip(8) =~= data@.skip(pos as int + 8));
        }
        return None;
    }
    let len = len64 as usize;
    let bytes = sub_bytes(data, pos + 8, pos + 8 + len);
    proof {
        assert(data@.skip(pos as int).skip(8) =~= data@.skip(pos as int + 8));
        assert(data@.skip(pos as int + 8).subrange(0, len as int) =~= data@.subrange(
            pos as int + 8,
            pos as int + 8 + len as int,
        ));
        assert(data@.skip(pos as int + 8).skip(len as int) =~= data@.skip(
            pos as int + 8 + len as int,
        ));
    }
    match string_from_utf8(bytes) {
        Some(s) => Some((s, pos + 8 + len)),
        None => None,
    }
}

impl SecretMapping {
    /// Serializes the mapping to its payload bytes.
    pub fn to_bytes(&self) -> (r: Vec<u8>)
        ensures
            r@ == encode_payload(self.spec_entries()),
            entries_bounded(self.spec_entries()),
    {
        let ghost s = self.spec_entries();
        let n = self.entries.len();
        let mut out = u64_to_le_bytes(n as u64);
        let mut i: usize = 0;
        while i < n
            invariant
                s == self.spec_entries(),
                n == s.len(),
                i <= n,
                out@ == spec_u64_to_le_bytes(n as u64) + encode_entries(s.subrange(0, i as int)),
                forall|j: int| 0 <= j < i ==> bounded_pair(#[trigger] s[j].0, s[j].1),
            decreases n - i,
        {
            proof {
                assert(s[i as int] == (self.entries@[i as int].0@, self.entries@[i as int].1@));
            }
            let kb = self.entries[i].0.as_str().as_bytes_vec();
            let mut klen = u64_to_le_bytes(kb.len() as u64);
            out.append(&mut klen);
            append_bytes(&mut out, kb.as_slice());
            let vb = self.entries[i].1.as_str().as_bytes_vec();
            let mut vlen = u64_to_le_bytes(vb.len() as u64);
            out.append(&mut vlen);
            append_bytes(&mut out, vb.as_slice());
            proof {
                let prefix = s.subrange(0, i as int);
                let upto = s.subrange(0, i as int + 1);
                assert(upto.drop_last() =~= prefix);
                assert(upto.last() == s[i as int]);
                lemma_encode_entries_snoc(upto);
                assert(out@ =~= spec_u64_to_le_bytes(n as u64) + encode_entries(upto));
            }
            i = i + 1;
        }
        proof {
            assert(s.subrange(0, n as int) =~= s);
        }
        out
    }

    /// Parses payload bytes back into a mapping.
    ///
    /// Fails exactly when the bytes are no well-formed payload: truncated,
    /// carrying trailing bytes, holding invalid UTF-8, or repeating a key.
    pub fn from_bytes(data: &[u8]) -> (r: Option<SecretMapping>)
        ensures
            match r {
                Some(m) => m.wf() && decode_payload(data@) == Some(m.spec_entries()),
                None => decode_payload(data@) is None,
            },
    {
        proof {
            lemma_auto_spec_u64_to_from_le_bytes();
        }
        if data.len() < 8 {
            return None;
        }
        let header = sub_bytes(data, 0, 8);
        let count = u64_from_le_bytes(header.as_slice());
        proof {
            assert(data@.subrange(0, 8) =~= header@);
            assert(take_u64(data@) == Some((count, data@.skip(8))));
        }
        let mut pairs: Vec<(String, String)> = Vec::new();
        let ghost mut built: Seq<(Seq<char>, Seq<char>)> = Seq::empty();
        let mut pos: usize = 8;
        let mut parsed: u64 = 0;
        proof {
            match decode_entries(data@.skip(8), count as nat) {
                Some(t) => {
                    assert(built + t =~= t);
                },
                None => {},
            }
            assert(pairs@.map_values(|e: (String, String)| (e.0@, e.1@)) =~= built);
        }
        while parsed < count
            invariant
                8 <= pos <= data@.len(),
                parsed <= count,
                take_u64(data@) == Some((count, data@.skip(8))),
                built == pairs@.map_values(|e: (String, String)| (e.0@, e.1@)),
                built.len() == parsed,
                decode_entries(data@.skip(8), count as nat) == match decode_entries(
                    data@.skip(pos as int),
                    (count - parsed) as nat,
                ) {
                    Some(t) => Some(built + t),
                    None => None::<Seq<(Seq<char>, Seq<char>)>>,
                },
            decreases count - parsed,
        {
            let ghost opos = pos as int;
            let ghost oparsed = parsed;
            let ghost obuilt = built;
            let ghost m = (count - parsed) as nat;
            let (k, kend) = match read_str(data, pos) {
                Some(t) => t,
                None => {
                    proof {
                        assert(decode_entries(data@.skip(opos), m) is None);
                        assert(decode_payload(data@) is None);
                    }
                    return None;
                },
            };
            let (v, vend) = match read_str(data, kend) {
                Some(t) => t,
                None => {
                    proof {
                        assert(decode_entries(data@.skip(opos), m) is None);
                        assert(decode_payload(data@) is None);
                    }
                    return None;
                },
            };
            proof {
                built = built.push((k@, v@));
            }
            pairs.push((k, v));
            pos = vend;
            parsed = parsed + 1;
            proof {
                let new_rest = data@.skip(pos as int);
                assert(decode_entries(data@.skip(opos), m) == match decode_entries(
                    new_rest,
                    (m - 1) as nat,
                ) {
                    Some(tail) => Some(seq![(k@, v@)] + tail),
                    None => None::<Seq<(Seq<char>, Seq<char>)>>,
                });
                match decode_entries(new_rest, (m - 1) as nat) {
                    Some(tail) => {
                        assert(obuilt + (seq![(k@, v@)] + tail) =~= built + tail);
                    },
                    None => {},
                }
                assert(pairs@.map_values(|e: (String, String)| (e.0@, e.1@)) =~= built);
            }
        }
        if pos != data.len() {
            proof {
                assert(data@.skip(pos as int).len() > 0);
                assert(decode_entries(data@.skip(pos as int), 0) is None);
                assert(decode_payload(data@) is None);
            }
            return None;
        }
        let m = SecretMapping { entries: pairs };
        proof {
            assert(data@.skip(pos as int) =~= Seq::<u8>::empty());
            assert(m.spec_entries() == built);
            assert(decode_entries(data@.skip(8), count as nat) == Some(m.spec_entries()));
        }
        let n = m.entries.len();
        let mut i: usize = 0;
        while i < n
            invariant
                n == m.spec_entries().len(),
                i <= n,
                take_u64(data@) == Some((count, data@.skip(8))),
                decode_entries(data@.skip(8), count as nat) == Some(m.spec_entries()),
                forall|a: int, b: int|
                    0 <= a < b < m.spec_entries().len() && a < i ==> m.spec_entries()[a].0
                        != m.spec_entries()[b].0,
            decreases n - i,
        {
            match m.position_from(i) {
                Some(_) => {
                    proof {
                        assert(!unique_keys(m.spec_entries()));
                        assert(decode_payload(data@) is None);
                    }
                    return None;
                },
                None => {},
            }
            i = i + 1;
        }
        proof {
            assert(unique_keys(m.spec_entries()));
        }
        Some(m)
    }

    /// Position of a later pair sharing the key of the pair at `i`, if any.
    fn position_from(&self, i: usize) -> (r: Option<usize>)
        requires
            i < self.spec_entries().len(),
        ensures
            match r {
                Some(j) => i < j < self.spec_entries().len() && self.spec_entries()[j as int].0
                    == self.spec_entries()[i as int].0,
                None => forall|j: int|
                    i < j < self.spec_entries().len() ==> self.spec_entries()[j].0
                        != self.spec_entries()[i as int].0,
            },
    {
        let n = self.entries.len();
        let mut j: usize = i + 1;
        while j < n
            invariant
                i < self.spec_entries().len(),
                n == self.spec_entries().len(),
                i < j,
                forall|q: int|
                    i < q < j ==> self.spec_entries()[q].0 != self.spec_entries()[i as int].0,
            decreases n - j,
        {
            proof {
                assert(self.spec_entries()[j as int] == (self.entries@[j as int].0@,
                self.entries@[j as int].1@));
                assert(self.spec_entries()[i as int] == (self.entries@[i as int].0@,
                self.entries@[i as int].1@));
            }
            if self.entries[j].0 == self.entries[i].0 {
                return Some(j);
            }
            j = j + 1;
        }
        None
    }
}

} // verus!
