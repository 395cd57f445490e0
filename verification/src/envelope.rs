//! The on-disk envelope layout.
//!
//! An envelope is `salt (16 bytes) || secret (128 bytes) || iv (16 bytes) ||
//! ciphertext (the rest)`.  The three fixed-size fields carry the random
//! key-derivation material and the block-cipher initialization vector; the
//! ciphertext is everything after them, so no length prefixes are needed.

use crate::bytesutil::{append_bytes, sub_bytes};
use vstd::prelude::*;

verus! {

pub const SALT_LEN: usize = 16;

pub const SECRET_LEN: usize = 128;

pub const IV_LEN: usize = 16;

/// Total length of the fixed-size fields that precede the ciphertext.
pub const HEADER_LEN: usize = 160;

/// The byte sequence an envelope serializes to.
pub open spec fn envelope_bytes(
    salt: Seq<u8>,
    secret: Seq<u8>,
    iv: Seq<u8>,
    ciphertext: Seq<u8>,
) -> Seq<u8> {
    salt + secret + iv + ciphertext
}

/// The four fields of a parsed envelope.
pub struct EnvelopeParts {
    pub salt: Vec<u8>,
    pub secret: Vec<u8>,
    pub iv: Vec<u8>,
    pub ciphertext: Vec<u8>,
}

impl EnvelopeParts {
    /// The fixed field lengths of a well-formed envelope.
    pub open spec fn wf(self) -> bool {
        &&& self.salt@.len() == SALT_LEN
        &&& self.secret@.len() == SECRET_LEN
        &&& self.iv@.len() == IV_LEN
    }

    pub open spec fn spec_bytes(self) -> Seq<u8> {
        envelope_bytes(self.salt@, self.secret@, self.iv@, self.ciphertext@)
    }
}

/// Concatenates the four fields in their fixed order.
pub fn serialize_envelope(parts: &EnvelopeParts) -> (r: Vec<u8>)
    requires
        parts.wf(),
    ensures
        r@ == parts.spec_bytes(),
        r@.len() == HEADER_LEN + parts.ciphertext@.len(),
{
    let mut out: Vec<u8> = Vec::new();
    append_bytes(&mut out, parts.salt.as_slice());
    append_bytes(&mut out, parts.secret.as_slice());
    append_bytes(&mut out, parts.iv.as_slice());
    append_bytes(&mut out, parts.ciphertext.as_slice());
    proof {
        assert(out@ =~= parts.spec_bytes());
    }
    out
}

/// Slices an envelope back into its four fields.
///
/// Returns `None` when the buffer is shorter than the fixed-size fields: a
/// correctly produced envelope is never shorter than that.
pub fn parse_envelope(data: &[u8]) -> (r: Option<EnvelopeParts>)
    ensures
        data@.len() < HEADER_LEN ==> r is None,
        data@.len() >= HEADER_LEN ==> (r matches Some(parts) && parts.wf() && parts.spec_bytes()
            == data@ && parts.salt@ == data@.subrange(0, SALT_LEN as int) && parts.secret@
            == data@.subrange(SALT_LEN as int, (SALT_LEN + SECRET_LEN) as int) && parts.iv@
            == data@.subrange((SALT_LEN + SECRET_LEN) as int, HEADER_LEN as int)
            && parts.ciphertext@ == data@.subrange(HEADER_LEN as int, data@.len() as int)),
{
    if data.len() < HEADER_LEN {
        return None;
    }
    let salt = sub_bytes(data, 0, SALT_LEN);
    let secret = sub_bytes(data, SALT_LEN, SALT_LEN + SECRET_LEN);
    let iv = sub_bytes(data, SALT_LEN + SECRET_LEN, HEADER_LEN);
    let ciphertext = sub_bytes(data, HEADER_LEN, data.len());
    let parts = EnvelopeParts { salt, secret, iv, ciphertext };
    proof {
        assert(parts.spec_bytes() =~= data@);
    }
    Some(parts)
}

/// Distinct key material or IVs always yield distinct envelopes.
///
/// Every lock operation draws a fresh salt, secret and IV; because the
/// envelope embeds all three verbatim at fixed offsets, two envelopes built
/// from different triples can never be the same byte sequence, whatever the
/// ciphertexts are.
pub proof fn lemma_envelope_freshness(
    salt1: Seq<u8>,
    secret1: Seq<u8>,
    iv1: Seq<u8>,
    ct1: Seq<u8>,
    salt2: Seq<u8>,
    secret2: Seq<u8>,
    iv2: Seq<u8>,
    ct2: Seq<u8>,
)
    requires
        salt1.len() == SALT_LEN,
        secret1.len() == SECRET_LEN,
        iv1.len() == IV_LEN,
        salt2.len() == SALT_LEN,
        secret2.len() == SECRET_LEN,
        iv2.len() == IV_LEN,
        salt1 != salt2 || secret1 != secret2 || iv1 != iv2,
    ensures
        envelope_bytes(salt1, secret1, iv1, ct1) != envelope_bytes(salt2, secret2, iv2, ct2),
{
    let e1 = envelope_bytes(salt1, secret1, iv1, ct1);
    let e2 = envelope_bytes(salt2, secret2, iv2, ct2);
    if e1 == e2 {
        assert(salt1 =~= e1.subrange(0, SALT_LEN as int));
        assert(salt2 =~= e2.subrange(0, SALT_LEN as int));
        assert(secret1 =~= e1.subrange(SALT_LEN as int, (SALT_LEN + SECRET_LEN) as int));
        assert(secret2 =~= e2.subrange(SALT_LEN as int, (SALT_LEN + SECRET_LEN) as int));
        assert(iv1 =~= e1.subrange((SALT_LEN + SECRET_LEN) as int, HEADER_LEN as int));
        assert(iv2 =~= e2.subrange((SALT_LEN + SECRET_LEN) as int, HEADER_LEN as int));
    }
}

} // verus!
