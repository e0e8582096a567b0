//! The password algorithms of the standard security handler, revisions 2
//! to 4: the file encryption key, the /O and /U entries, and the checks of
//! passwords against them.

use vstd::prelude::*;
use crate::document::{Document, encrypt_dict};
use crate::error::Error;
use crate::object::{Object, Dictionary, entries_get};
use crate::names::{encrypt_metadata_bytes, encrypt_metadata_key, o_bytes, o_key, u_bytes, u_key, p_bytes, p_key,
    id_bytes, id_key, length_bytes, length_key, r_bytes, r_key};
use crate::encryption::DecryptionError;
use crate::encryption::rc4::{Rc4, rc4, key_schedule, keystream_xor};

verus! {

/// The digest that MD5 makes of `data`.
pub uninterp spec fn md5(data: Seq<u8>) -> Seq<u8>;

/// Computes the MD5 digest of `data` with `md5::Md5`. The digest is named;
/// the crate's output size for MD5 is 16 bytes.
#[verifier::external_body]
pub(crate) fn md5_digest(data: &[u8]) -> (r: Vec<u8>)
    ensures
        r@ == md5(data@),
        r@.len() == 16,
{
    <md5::Md5 as md5::Digest>::digest(data).to_vec()
}

/// `n` random bytes from `rand::rng()`. Nothing is said of their values.
#[verifier::external_body]
fn random_bytes(n: usize) -> (r: Vec<u8>)
    ensures
        r@.len() == n,
{
    let mut out = vec![0u8; n];
    rand::Rng::fill(&mut rand::rng(), out.as_mut_slice());
    out
}

/// The padding string of the standard security handler.
pub open spec fn pad_bytes() -> Seq<u8> {
    seq![0x28u8, 0xBF, 0x4E, 0x5E, 0x4E, 0x75, 0x8A, 0x41, 0x64, 0x00, 0x4E, 0x56, 0xFF, 0xFA, 0x01, 0x08, 0x2E, 0x2E,
        0x00, 0xB6, 0xD0, 0x68, 0x3E, 0x80, 0x2F, 0x0C, 0xA9, 0xFE, 0x64, 0x53, 0x69, 0x7A]
}

fn pad_vec() -> (r: Vec<u8>)
    ensures
        r@ == pad_bytes(),
{
    let r = vec![0x28u8, 0xBF, 0x4E, 0x5E, 0x4E, 0x75, 0x8A, 0x41, 0x64, 0x00, 0x4E, 0x56, 0xFF, 0xFA, 0x01, 0x08,
        0x2E, 0x2E, 0x00, 0xB6, 0xD0, 0x68, 0x3E, 0x80, 0x2F, 0x0C, 0xA9, 0xFE, 0x64, 0x53, 0x69, 0x7A];
    assert(r@ =~= pad_bytes());
    r
}

/// How many bytes of a password count: at most 32.
pub open spec fn pad_len(password: Seq<u8>) -> int {
    if password.len() < 32 { password.len() as int } else { 32 }
}

/// A password padded or truncated to 32 bytes: its first bytes, then the
/// end of the padding string.
pub open spec fn padded(password: Seq<u8>) -> Seq<u8> {
    password.subrange(0, pad_len(password)) + pad_bytes().subrange(pad_len(password), 32)
}

/// `k` rounds of MD5, each over the first `n` bytes of the previous digest.
pub open spec fn md5_rounds(hash: Seq<u8>, n: int, k: nat) -> Seq<u8>
    decreases k,
{
    if k == 0 { hash } else { md5_rounds(md5(hash.subrange(0, n)), n, (k - 1) as nat) }
}

/// The four bytes of `v`, least significant first.
pub open spec fn le_bytes(v: u32) -> Seq<u8> {
    seq![(v % 256) as u8, ((v / 256) % 256) as u8, ((v / 65536) % 256) as u8, (v / 16777216) as u8]
}

/// Each byte of `key` XORed with `i`.
pub open spec fn xor_key(key: Seq<u8>, i: u8) -> Seq<u8> {
    Seq::new(key.len(), |j: int| key[j] ^ i)
}

/// RC4 rounds `from..=19` with the key XORed with each round's number.
pub open spec fn rc4_rounds_up(key: Seq<u8>, data: Seq<u8>, from: nat) -> Seq<u8>
    decreases 20 - from,
{
    if from > 19 || from == 0 { data } else { rc4_rounds_up(key, rc4(xor_key(key, from as u8), data), from + 1) }
}

/// RC4 rounds `to..=1` downwards with the key XORed with each round's number.
pub open spec fn rc4_rounds_down(key: Seq<u8>, data: Seq<u8>, to: nat) -> Seq<u8>
    decreases to,
{
    if to == 0 || to > 19 { data } else { rc4_rounds_down(key, rc4(xor_key(key, to as u8), data), (to - 1) as nat) }
}

/// A byte string entry of a dictionary: an error `missing` where it is
/// missing, `InvalidType` where it is no string.
pub open spec fn string_entry(dict: Seq<(Seq<u8>, Object)>, key: Seq<u8>, missing: DecryptionError)
    -> Result<Seq<u8>, DecryptionError>
{
    match entries_get(dict, key) {
        None => Err(missing),
        Some(Object::String(s, _)) => Ok(s@),
        Some(_) => Err(DecryptionError::InvalidType),
    }
}

/// The /P entry, as the low 32 bits of the integer.
pub open spec fn permissions_entry(dict: Seq<(Seq<u8>, Object)>) -> Result<u32, DecryptionError> {
    match entries_get(dict, p_bytes()) {
        None => Err(DecryptionError::MissingPermissions),
        Some(Object::Integer(v)) => Ok(v as u32),
        Some(_) => Err(DecryptionError::InvalidType),
    }
}

/// The first element of the trailer's /ID array, a byte string.
pub open spec fn file_id_0(trailer: Seq<(Seq<u8>, Object)>) -> Result<Seq<u8>, DecryptionError> {
    match entries_get(trailer, id_bytes()) {
        None => Err(DecryptionError::MissingFileID),
        Some(Object::Array(a)) => if a@.len() == 0 {
            Err(DecryptionError::InvalidType)
        } else {
            match a@[0] {
                Object::String(s, _) => Ok(s@),
                _ => Err(DecryptionError::InvalidType),
            }
        },
        Some(_) => Err(DecryptionError::InvalidType),
    }
}

/// /EncryptMetadata, true where it is missing.
pub open spec fn encrypt_metadata(dict: Seq<(Seq<u8>, Object)>) -> Result<bool, DecryptionError> {
    match entries_get(dict, encrypt_metadata_bytes()) {
        None => Ok(true),
        Some(Object::Boolean(b)) => Ok(b),
        Some(_) => Err(DecryptionError::InvalidType),
    }
}

/// How to compute keys and password entries: the key length in bits and
/// the revision of the security handler.
#[derive(Debug, Clone, Copy, PartialEq, Eq, Structural)]
pub struct PasswordAlgorithm {
    pub length: Option<usize>,
    pub revision: i64,
}

impl PasswordAlgorithm {
    /// The number of bytes of the RC4 key: 5 for revision 2, /Length / 8 for
    /// later ones; an error where /Length is missing or over 128 bits.
    pub open spec fn key_bytes(self) -> Result<int, DecryptionError> {
        if self.revision >= 3 {
            match self.length {
                None => Err(DecryptionError::MissingKeyLength),
                Some(l) => if l / 8 > 16 { Err(DecryptionError::InvalidKeyLength) } else { Ok((l / 8) as int) },
            }
        } else {
            Ok(5)
        }
    }

    /// Whether the key length is one RC4 can take: not zero bytes.
    pub open spec fn key_fits(self) -> bool {
        self.key_bytes() matches Ok(n) ==> n > 0
    }

    /// The file encryption key that `password` gives (Algorithm 2).
    pub open spec fn file_key_r4(self, trailer: Seq<(Seq<u8>, Object)>, encrypted: Option<Dictionary>, password: Seq<u8>)
        -> Result<Seq<u8>, DecryptionError>
    {
        match encrypted {
            None => Err(DecryptionError::MissingEncryptDictionary),
            Some(d) => match encrypt_metadata(d@) {
                Err(e) => Err(e),
                Ok(meta) => match string_entry(d@, o_bytes(), DecryptionError::MissingOwnerPassword) {
                    Err(e) => Err(e),
                    Ok(owner) => match permissions_entry(d@) {
                        Err(e) => Err(e),
                        Ok(p) => match file_id_0(trailer) {
                            Err(e) => Err(e),
                            Ok(id) => {
                                let input = padded(password) + owner + le_bytes(p) + id
                                    + if self.revision >= 4 && !meta { seq![0xffu8, 0xff, 0xff, 0xff] } else { Seq::empty() };
                                let hash = md5(input);
                                match self.key_bytes() {
                                    Err(e) => Err(e),
                                    Ok(n) => Ok(if self.revision >= 3 { md5_rounds(hash, n, 50) } else { hash }.subrange(0, n)),
                                }
                            },
                        },
                    },
                },
            },
        }
    }

    /// The RC4 key that the owner password gives (Algorithms 3 and 7): MD5
    /// of the padded password, hashed 50 times more from revision 3 on.
    pub open spec fn owner_key_r4(self, password: Seq<u8>) -> Result<Seq<u8>, DecryptionError> {
        let hash = md5(padded(password));
        let full = if self.revision >= 3 { md5_rounds(hash, 16, 50) } else { hash };
        match self.key_bytes() {
            Err(e) => Err(e),
            Ok(n) => Ok(full.subrange(0, n)),
        }
    }

    /// The /O entry for the owner and user passwords (Algorithm 3).
    pub open spec fn owner_entry_r4(self, owner: Option<Seq<u8>>, user: Seq<u8>) -> Result<Seq<u8>, DecryptionError> {
        let password = match owner { Some(o) => o, None => user };
        match self.owner_key_r4(password) {
            Err(e) => Err(e),
            Ok(key) => {
                let len = pad_len(user);
                let first = rc4(key, user.subrange(0, len) + pad_bytes().subrange(len, 32));
                Ok(if self.revision >= 3 { rc4_rounds_up(key, first, 1) } else { first })
            },
        }
    }

    /// The /U entry of revision 2 for `password` (Algorithm 4).
    pub open spec fn user_entry_r2(self, trailer: Seq<(Seq<u8>, Object)>, encrypted: Option<Dictionary>, password: Seq<u8>)
        -> Result<Seq<u8>, DecryptionError>
    {
        match self.file_key_r4(trailer, encrypted, password) {
            Err(e) => Err(e),
            Ok(key) => Ok(rc4(key, pad_bytes())),
        }
    }

    /// The first 16 bytes of the /U entry of revisions 3 and 4 for
    /// `password` (Algorithm 5); the other 16 are arbitrary.
    pub open spec fn user_entry_r3_r4(self, trailer: Seq<(Seq<u8>, Object)>, encrypted: Option<Dictionary>, password: Seq<u8>)
        -> Result<Seq<u8>, DecryptionError>
    {
        match self.file_key_r4(trailer, encrypted, password) {
            Err(e) => Err(e),
            Ok(key) => match file_id_0(trailer) {
                Err(e) => Err(e),
                Ok(id) => Ok(rc4_rounds_up(key, rc4(key, md5(pad_bytes() + id)), 1)),
            },
        }
    }

    /// The check of a user password (Algorithm 6): the /U entry it gives
    /// must match the stored one, on all 32 bytes for revision 2 and on the
    /// first 16 for revisions 3 and 4.
    pub open spec fn user_check(self, trailer: Seq<(Seq<u8>, Object)>, encrypted: Option<Dictionary>, password: Seq<u8>)
        -> Result<(), DecryptionError>
    {
        let hashed = if self.revision == 2 {
            self.user_entry_r2(trailer, encrypted, password)
        } else if self.revision == 3 || self.revision == 4 {
            self.user_entry_r3_r4(trailer, encrypted, password)
        } else {
            Err(DecryptionError::InvalidRevision)
        };
        match hashed {
            Err(e) => Err(e),
            Ok(h) => match encrypted {
                None => Err(DecryptionError::MissingEncryptDictionary),
                Some(d) => match string_entry(d@, u_bytes(), DecryptionError::MissingUserPassword) {
                    Err(e) => Err(e),
                    Ok(stored) => {
                        let len = if self.revision == 3 || self.revision == 4 { 16 } else { h.len() as int };
                        if h.subrange(0, len) == stored.subrange(0, len) {
                            Ok(())
                        } else {
                            Err(DecryptionError::IncorrectPassword)
                        }
                    },
                },
            },
        }
    }

    /// The check of an owner password (Algorithm 7): the user password that
    /// it decrypts from the stored /O entry must pass the user check.
    pub open spec fn owner_check(self, trailer: Seq<(Seq<u8>, Object)>, encrypted: Option<Dictionary>, password: Seq<u8>)
        -> Result<(), DecryptionError>
    {
        match self.owner_key_r4(password) {
            Err(e) => Err(e),
            Ok(key) => match encrypted {
                None => Err(DecryptionError::MissingEncryptDictionary),
                Some(d) => match string_entry(d@, o_bytes(), DecryptionError::MissingUserPassword) {
                    Err(e) => Err(e),
                    Ok(o) => {
                        let undone = if self.revision >= 3 { rc4_rounds_down(key, o, 19) } else { o };
                        self.user_check(trailer, encrypted, rc4(key, undone))
                    },
                },
            },
        }
    }

    /// Whether the stored /U entry is long enough for the user check to
    /// compare: 32 bytes for revision 2, 16 for revisions 3 and 4.
    pub open spec fn stored_user_fits(self, encrypted: Option<Dictionary>) -> bool {
        match encrypted {
            Some(d) => match string_entry(d@, u_bytes(), DecryptionError::MissingUserPassword) {
                Ok(stored) => stored.len() >= if self.revision == 2 { 32nat } else { 16nat },
                Err(_) => true,
            },
            None => true,
        }
    }
}

/// Whether the revision is one of the standard security handler's 2 to 4.
pub open spec fn revision_r4(revision: i64) -> bool {
    2 <= revision <= 4
}

/// The padding string.
fn padded_password(password: &[u8]) -> (r: Vec<u8>)
    ensures
        r@ == padded(password@),
{
    let len = if password.len() < 32 { password.len() } else { 32 };
    let pad = pad_vec();
    let mut out: Vec<u8> = Vec::new();
    let mut i: usize = 0;
    while i < len
        invariant
            len == pad_len(password@),
            i <= len,
            out@ == password@.subrange(0, i as int),
        decreases len - i,
    {
        out.push(password[i]);
        i = i + 1;
        assert(out@ =~= password@.subrange(0, i as int));
    }
    let mut k: usize = len;
    while k < 32
        invariant
            len == pad_len(password@),
            len <= k <= 32,
            pad@ == pad_bytes(),
            out@ == password@.subrange(0, len as int) + pad_bytes().subrange(len as int, k as int),
        decreases 32 - k,
    {
        out.push(pad[k]);
        k = k + 1;
        assert(out@ =~= password@.subrange(0, len as int) + pad_bytes().subrange(len as int, k as int));
    }
    out
}

/// Appends `data` to `out`.
fn append(out: &mut Vec<u8>, data: &[u8])
    ensures
        final(out)@ == old(out)@ + data@,
{
    let ghost start = out@;
    let mut i: usize = 0;
    while i < data.len()
        invariant
            i <= data@.len(),
            out@ == start + data@.subrange(0, i as int),
        decreases data@.len() - i,
    {
        out.push(data[i]);
        i = i + 1;
        assert(out@ =~= start + data@.subrange(0, i as int));
    }
    assert(data@.subrange(0, data@.len() as int) =~= data@);
}

/// The first `n` bytes of `data`.
fn prefix(data: &[u8], n: usize) -> (r: Vec<u8>)
    requires
        n <= data@.len(),
    ensures
        r@ == data@.subrange(0, n as int),
{
    let mut out: Vec<u8> = Vec::new();
    let mut i: usize = 0;
    while i < n
        invariant
            n <= data@.len(),
            i <= n,
            out@ == data@.subrange(0, i as int),
        decreases n - i,
    {
        out.push(data[i]);
        i = i + 1;
        assert(out@ =~= data@.subrange(0, i as int));
    }
    out
}

/// Each byte of `key` XORed with `i`.
fn xored(key: &[u8], i: u8) -> (r: Vec<u8>)
    ensures
        r@ == xor_key(key@, i),
{
    let mut out: Vec<u8> = Vec::new();
    let mut j: usize = 0;
    while j < key.len()
        invariant
            j <= key@.len(),
            out@.len() == j,
            forall|m: int| 0 <= m < j ==> out@[m] == key@[m] ^ i,
        decreases key@.len() - j,
    {
        out.push(key[j] ^ i);
        j = j + 1;
    }
    assert(out@ =~= xor_key(key@, i));
    out
}

/// RC4 with `key`, which is not empty, over `data`.
fn rc4_apply(key: &[u8], data: &[u8]) -> (r: Vec<u8>)
    requires
        key@.len() > 0,
    ensures
        r@ == rc4(key@, data@),
        r@.len() == data@.len(),
{
    Rc4::new(key).encrypt(data)
}

/// A byte string entry of `dict`.
fn string_value(dict: &Dictionary, key: &[u8], missing: DecryptionError) -> (r: Result<Vec<u8>, DecryptionError>)
    ensures
        match string_entry(dict@, key@, missing) {
            Ok(s) => r matches Ok(v) && v@ == s,
            Err(e) => r == Err::<Vec<u8>, DecryptionError>(e),
        },
{
    match dict.get(key) {
        Ok(o) => match o {
            Object::String(s, _) => Ok(prefix(s.as_slice(), s.len())),
            _ => Err(DecryptionError::InvalidType),
        },
        Err(_) => Err(missing),
    }
}

/// The first element of the trailer's /ID.
fn first_file_id(trailer: &Dictionary) -> (r: Result<Vec<u8>, DecryptionError>)
    ensures
        match file_id_0(trailer@) {
            Ok(s) => r matches Ok(v) && v@ == s,
            Err(e) => r == Err::<Vec<u8>, DecryptionError>(e),
        },
{
    match trailer.get(id_key().as_slice()) {
        Ok(Object::Array(a)) => {
            if a.len() == 0 {
                return Err(DecryptionError::InvalidType);
            }
            match &a[0] {
                Object::String(s, _) => Ok(prefix(s.as_slice(), s.len())),
                _ => Err(DecryptionError::InvalidType),
            }
        },
        Ok(_) => Err(DecryptionError::InvalidType),
        Err(_) => Err(DecryptionError::MissingFileID),
    }
}

impl PasswordAlgorithm {
    /// Reads the key length and revision of a document's encryption
    /// dictionary.
    pub fn try_from(value: &Document) -> (r: Result<PasswordAlgorithm, Error>)
        ensures
            match encrypt_dict(*value) {
                None => r == Err::<PasswordAlgorithm, Error>(Error::Decryption(DecryptionError::MissingEncryptDictionary)),
                Some(d) => match entries_get(d@, length_bytes()) {
                    Some(Object::Integer(l)) => if l < 0 {
                        r is Err
                    } else {
                        algorithm_with(r, d@, Some(l as usize))
                    },
                    Some(_) => r is Err,
                    None => algorithm_with(r, d@, None),
                },
            },
    {
        let encrypted = match value.get_encrypted() {
            Ok(d) => d,
            Err(_) => {
                return Err(Error::Decryption(DecryptionError::MissingEncryptDictionary));
            },
        };
        let length = match encrypted.get(length_key().as_slice()) {
            Ok(o) => match o.as_i64() {
                Ok(l) => {
                    if l < 0 {
                        return Err(Error::Decryption(DecryptionError::InvalidKeyLength));
                    }
                    Some(l as usize)
                },
                Err(e) => {
                    return Err(e);
                },
            },
            Err(_) => None,
        };
        let revision = match encrypted.get(r_key().as_slice()) {
            Ok(o) => match o.as_i64() {
                Ok(v) => v,
                Err(_) => {
                    return Err(Error::Decryption(DecryptionError::InvalidType));
                },
            },
            Err(_) => {
                return Err(Error::Decryption(DecryptionError::MissingRevision));
            },
        };
        Ok(PasswordAlgorithm { length, revision })
    }

    /// The RC4 key length in bytes.
    fn key_len(&self) -> (r: Result<usize, DecryptionError>)
        ensures
            match self.key_bytes() {
                Ok(n) => r == Ok::<usize, DecryptionError>(n as usize) && n <= 16,
                Err(e) => r == Err::<usize, DecryptionError>(e),
            },
    {
        let n = if self.revision >= 3 {
            match self.length {
                Some(l) => l / 8,
                None => {
                    return Err(DecryptionError::MissingKeyLength);
                },
            }
        } else {
            5
        };
        if n > 16 {
            return Err(DecryptionError::InvalidKeyLength);
        }
        Ok(n)
    }

    /// Compute a file encryption key in order to encrypt a document (revision 4 and earlier).
    ///
    /// This implements Algorithm 2 as described in ISO 32000-2:2020 (PDF 2.0).
    fn compute_file_encryption_key_r4(&self, doc: &Document, password: &[u8]) -> (r: Result<Vec<u8>, DecryptionError>)
        ensures
            match self.file_key_r4(doc.trailer@, encrypt_dict(*doc), password@) {
                Ok(k) => r matches Ok(v) && v@ == k,
                Err(e) => r == Err::<Vec<u8>, DecryptionError>(e),
            },
            r matches Ok(v) ==> self.key_bytes() matches Ok(n) && v@.len() == n,
    {
        let encrypted = match doc.get_encrypted() {
            Ok(d) => d,
            Err(_) => {
                return Err(DecryptionError::MissingEncryptDictionary);
            },
        };
        let encrypt_metadata = match encrypted.get(encrypt_metadata_key().as_slice()) {
            Ok(Object::Boolean(b)) => *b,
            Ok(_) => {
                return Err(DecryptionError::InvalidType);
            },
            Err(_) => true,
        };
        let mut input = padded_password(password);
        let owner = string_value(encrypted, o_key().as_slice(), DecryptionError::MissingOwnerPassword)?;
        append(&mut input, owner.as_slice());
        let permissions: u32 = match encrypted.get(p_key().as_slice()) {
            Ok(Object::Integer(v)) => *v as u32,
            Ok(_) => {
                return Err(DecryptionError::InvalidType);
            },
            Err(_) => {
                return Err(DecryptionError::MissingPermissions);
            },
        };
        let le: [u8; 4] = [(permissions % 256) as u8, ((permissions / 256) % 256) as u8,
            ((permissions / 65536) % 256) as u8, (permissions / 16777216) as u8];
        assert(le@ =~= le_bytes(permissions));
        append(&mut input, le.as_slice());
        let id = first_file_id(&doc.trailer)?;
        append(&mut input, id.as_slice());
        if self.revision >= 4 && !encrypt_metadata {
            let ff: [u8; 4] = [0xff, 0xff, 0xff, 0xff];
            assert(ff@ =~= seq![0xffu8, 0xff, 0xff, 0xff]);
            append(&mut input, ff.as_slice());
        } else {
            assert(input@ =~= input@ + Seq::<u8>::empty());
        }
        let mut hash = md5_digest(input.as_slice());
        let n = self.key_len()?;
        if self.revision >= 3 {
            let ghost h0 = hash@;
            let mut k: usize = 0;
            while k < 50
                invariant
                    k <= 50,
                    n <= 16,
                    hash@.len() == 16,
                    md5_rounds(h0, n as int, 50) == md5_rounds(hash@, n as int, (50 - k) as nat),
                decreases 50 - k,
            {
                hash = md5_digest(prefix(hash.as_slice(), n).as_slice());
                k = k + 1;
            }
        }
        Ok(prefix(hash.as_slice(), n))
    }

    /// The RC4 key that the owner password gives (Algorithms 3 and 7).
    fn owner_key(&self, password: &[u8]) -> (r: Result<Vec<u8>, DecryptionError>)
        ensures
            match self.owner_key_r4(password@) {
                Ok(k) => r matches Ok(v) && v@ == k,
                Err(e) => r == Err::<Vec<u8>, DecryptionError>(e),
            },
            r matches Ok(v) ==> self.key_bytes() matches Ok(n) && v@.len() == n,
    {
        let mut hash = md5_digest(padded_password(password).as_slice());
        if self.revision >= 3 {
            let ghost h0 = hash@;
            let mut k: usize = 0;
            while k < 50
                invariant
                    k <= 50,
                    hash@.len() == 16,
                    md5_rounds(h0, 16, 50) == md5_rounds(hash@, 16, (50 - k) as nat),
                decreases 50 - k,
            {
                assert(hash@.subrange(0, 16) =~= hash@);
                hash = md5_digest(hash.as_slice());
                k = k + 1;
            }
        }
        let n = self.key_len()?;
        Ok(prefix(hash.as_slice(), n))
    }

    /// RC4 rounds 1 to 19 with the key XORed with each round's number.
    fn rounds_up(key: &[u8], data: Vec<u8>) -> (r: Vec<u8>)
        requires
            key@.len() > 0,
        ensures
            r@ == rc4_rounds_up(key@, data@, 1),
            r@.len() == data@.len(),
    {
        let mut result = data;
        let ghost d0 = data@;
        let mut i: u8 = 1;
        while i <= 19
            invariant
                1 <= i <= 20,
                key@.len() > 0,
                result@.len() == d0.len(),
                rc4_rounds_up(key@, d0, 1) == rc4_rounds_up(key@, result@, i as nat),
            decreases 20 - i,
        {
            let k = xored(key, i);
            result = rc4_apply(k.as_slice(), result.as_slice());
            i = i + 1;
        }
        result
    }

    /// Compute the encryption dictionary's O-entry value (revision 4 and earlier).
    ///
    /// This implements Algorithm 3 as described in ISO 32000-2:2020 (PDF 2.0).
    fn compute_hashed_owner_password_r4(&self, owner_password: Option<&[u8]>, user_password: &[u8])
        -> (r: Result<Vec<u8>, DecryptionError>)
        requires
            self.key_fits(),
        ensures
            match self.owner_entry_r4(match owner_password { Some(o) => Some(o@), None => None }, user_password@) {
                Ok(v) => r matches Ok(w) && w@ == v,
                Err(e) => r == Err::<Vec<u8>, DecryptionError>(e),
            },
    {
        let password = match owner_password {
            Some(o) => o,
            None => user_password,
        };
        let key = self.owner_key(password)?;
        let len = if user_password.len() < 32 { user_password.len() } else { 32 };
        let mut bytes = prefix(user_password, len);
        let pad = pad_vec();
        let mut k: usize = len;
        while k < 32
            invariant
                len <= k <= 32,
                pad@ == pad_bytes(),
                bytes@ == user_password@.subrange(0, len as int) + pad_bytes().subrange(len as int, k as int),
            decreases 32 - k,
        {
            bytes.push(pad[k]);
            k = k + 1;
            assert(bytes@ =~= user_password@.subrange(0, len as int) + pad_bytes().subrange(len as int, k as int));
        }
        let first = rc4_apply(key.as_slice(), bytes.as_slice());
        if self.revision >= 3 {
            Ok(Self::rounds_up(key.as_slice(), first))
        } else {
            Ok(first)
        }
    }
    /// RC4 rounds 19 down to 1 with the key XORed with each round's number.
    fn rounds_down(key: &[u8], data: Vec<u8>) -> (r: Vec<u8>)
        requires
            key@.len() > 0,
        ensures
            r@ == rc4_rounds_down(key@, data@, 19),
    {
        let mut result = data;
        let ghost d0 = data@;
        let mut i: u8 = 19;
        while i >= 1
            invariant
                i <= 19,
                key@.len() > 0,
                rc4_rounds_down(key@, d0, 19) == rc4_rounds_down(key@, result@, i as nat),
            decreases i,
        {
            let k = xored(key, i);
            result = rc4_apply(k.as_slice(), result.as_slice());
            i = i - 1;
        }
        result
    }

    /// Compute the encryption dictionary's U-entry value (revision 2).
    ///
    /// This implements Algorithm 4 as described in ISO 32000-2:2020 (PDF 2.0).
    fn compute_hashed_user_password_r2(&self, doc: &Document, user_password: &[u8]) -> (r: Result<Vec<u8>, DecryptionError>)
        requires
            self.key_fits(),
        ensures
            match self.user_entry_r2(doc.trailer@, encrypt_dict(*doc), user_password@) {
                Ok(v) => r matches Ok(w) && w@ == v,
                Err(e) => r == Err::<Vec<u8>, DecryptionError>(e),
            },
            r matches Ok(w) ==> w@.len() == 32,
    {
        let key = self.compute_file_encryption_key_r4(doc, user_password)?;
        Ok(rc4_apply(key.as_slice(), pad_vec().as_slice()))
    }

    /// Compute the encryption dictionary's U-entry value (revision 3 or 4).
    ///
    /// This implements Algorithm 5 as described in ISO 32000-2:2020 (PDF 2.0):
    /// 16 bytes of the algorithm, then 16 random bytes.
    fn compute_hashed_user_password_r3_r4(&self, doc: &Document, user_password: &[u8])
        -> (r: Result<Vec<u8>, DecryptionError>)
        requires
            self.key_fits(),
        ensures
            match self.user_entry_r3_r4(doc.trailer@, encrypt_dict(*doc), user_password@) {
                Ok(v) => r matches Ok(w) && w@.len() == 32 && w@.subrange(0, 16) == v,
                Err(e) => r == Err::<Vec<u8>, DecryptionError>(e),
            },
    {
        let key = self.compute_file_encryption_key_r4(doc, user_password)?;
        let mut input = pad_vec();
        let id = first_file_id(&doc.trailer)?;
        append(&mut input, id.as_slice());
        let hash = md5_digest(input.as_slice());
        let first = rc4_apply(key.as_slice(), hash.as_slice());
        let mut result = Self::rounds_up(key.as_slice(), first);
        let ghost head = result@;
        let tail = random_bytes(16);
        append(&mut result, tail.as_slice());
        assert(result@.subrange(0, 16) =~= head);
        Ok(result)
    }

    /// Authenticate the user password (revision 4 and earlier).
    ///
    /// This implements Algorithm 6 as described in ISO 32000-2:2020 (PDF 2.0).
    #[verifier::loop_isolation(false)]
    fn authenticate_user_password_r4(&self, doc: &Document, user_password: &[u8]) -> (r: Result<(), DecryptionError>)
        requires
            self.key_fits(),
            self.stored_user_fits(encrypt_dict(*doc)),
        ensures
            r == self.user_check(doc.trailer@, encrypt_dict(*doc), user_password@),
    {
        let hashed = if self.revision == 2 {
            self.compute_hashed_user_password_r2(doc, user_password)?
        } else if self.revision == 3 || self.revision == 4 {
            self.compute_hashed_user_password_r3_r4(doc, user_password)?
        } else {
            return Err(DecryptionError::InvalidRevision);
        };
        let len: usize = if self.revision == 3 || self.revision == 4 { 16 } else { hashed.len() };
        let encrypted = match doc.get_encrypted() {
            Ok(d) => d,
            Err(_) => {
                return Err(DecryptionError::MissingEncryptDictionary);
            },
        };
        let stored = string_value(encrypted, u_key().as_slice(), DecryptionError::MissingUserPassword)?;
        let mut i: usize = 0;
        while i < len
            invariant
                len <= hashed@.len(),
                len <= stored@.len(),
                i <= len,
                forall|j: int| 0 <= j < i ==> hashed@[j] == stored@[j],
            decreases len - i,
        {
            if hashed[i] != stored[i] {
                assert(hashed@.subrange(0, len as int)[i as int] != stored@.subrange(0, len as int)[i as int]);
                return Err(DecryptionError::IncorrectPassword);
            }
            i = i + 1;
        }
        assert(hashed@.subrange(0, len as int) =~= stored@.subrange(0, len as int));
        proof {
            if self.revision == 3 || self.revision == 4 {
                let h = self.user_entry_r3_r4(doc.trailer@, encrypt_dict(*doc), user_password@)->Ok_0;
                assert(h.subrange(0, 16) =~= hashed@.subrange(0, 16));
            } else {
                let h = self.user_entry_r2(doc.trailer@, encrypt_dict(*doc), user_password@)->Ok_0;
                assert(h.subrange(0, h.len() as int) =~= hashed@.subrange(0, len as int));
            }
        }
        Ok(())
    }

    /// Authenticate the owner password (revision 4 and earlier).
    ///
    /// This implements Algorithm 7 as described in ISO 32000-2:2020 (PDF 2.0).
    fn authenticate_owner_password_r4(&self, doc: &Document, owner_password: &[u8]) -> (r: Result<(), DecryptionError>)
        requires
            self.key_fits(),
            self.stored_user_fits(encrypt_dict(*doc)),
        ensures
            r == self.owner_check(doc.trailer@, encrypt_dict(*doc), owner_password@),
    {
        let key = self.owner_key(owner_password)?;
        let encrypted = match doc.get_encrypted() {
            Ok(d) => d,
            Err(_) => {
                return Err(DecryptionError::MissingEncryptDictionary);
            },
        };
        let mut result = string_value(encrypted, o_key().as_slice(), DecryptionError::MissingUserPassword)?;
        if self.revision >= 3 {
            result = Self::rounds_down(key.as_slice(), result);
        }
        let user = rc4_apply(key.as_slice(), result.as_slice());
        self.authenticate_user_password_r4(doc, user.as_slice())
    }

    /// Compute the file encryption key used to encrypt/decrypt the document.
    pub fn compute_file_encryption_key(&self, doc: &Document, password: &[u8]) -> (r: Result<Vec<u8>, DecryptionError>)
        ensures
            revision_r4(self.revision) ==> match self.file_key_r4(doc.trailer@, encrypt_dict(*doc), password@) {
                Ok(k) => r matches Ok(v) && v@ == k,
                Err(e) => r == Err::<Vec<u8>, DecryptionError>(e),
            },
            !revision_r4(self.revision) ==> r == Err::<Vec<u8>, DecryptionError>(DecryptionError::UnsupportedRevision),
    {
        if 2 <= self.revision && self.revision <= 4 {
            self.compute_file_encryption_key_r4(doc, password)
        } else {
            Err(DecryptionError::UnsupportedRevision)
        }
    }

    /// Compute the encryption dictionary's O-entry value.
    pub fn compute_hashed_owner_password(&self, owner_password: Option<&[u8]>, user_password: &[u8])
        -> (r: Result<Vec<u8>, DecryptionError>)
        requires
            self.key_fits(),
        ensures
            revision_r4(self.revision) ==> match self.owner_entry_r4(match owner_password { Some(o) => Some(o@), None => None }, user_password@) {
                Ok(v) => r matches Ok(w) && w@ == v,
                Err(e) => r == Err::<Vec<u8>, DecryptionError>(e),
            },
            !revision_r4(self.revision) ==> r == Err::<Vec<u8>, DecryptionError>(DecryptionError::UnsupportedRevision),
    {
        if 2 <= self.revision && self.revision <= 4 {
            self.compute_hashed_owner_password_r4(owner_password, user_password)
        } else {
            Err(DecryptionError::UnsupportedRevision)
        }
    }

    /// Compute the encryption dictionary's U-entry value.
    pub fn compute_hashed_user_password(&self, doc: &Document, user_password: &[u8]) -> (r: Result<Vec<u8>, DecryptionError>)
        requires
            self.key_fits(),
        ensures
            self.revision == 2 ==> match self.user_entry_r2(doc.trailer@, encrypt_dict(*doc), user_password@) {
                Ok(v) => r matches Ok(w) && w@ == v,
                Err(e) => r == Err::<Vec<u8>, DecryptionError>(e),
            },
            (self.revision == 3 || self.revision == 4) ==> match self.user_entry_r3_r4(doc.trailer@, encrypt_dict(*doc), user_password@) {
                Ok(v) => r matches Ok(w) && w@.len() == 32 && w@.subrange(0, 16) == v,
                Err(e) => r == Err::<Vec<u8>, DecryptionError>(e),
            },
            !revision_r4(self.revision) ==> r == Err::<Vec<u8>, DecryptionError>(DecryptionError::UnsupportedRevision),
    {
        if self.revision == 2 {
            self.compute_hashed_user_password_r2(doc, user_password)
        } else if self.revision == 3 || self.revision == 4 {
            self.compute_hashed_user_password_r3_r4(doc, user_password)
        } else {
            Err(DecryptionError::UnsupportedRevision)
        }
    }

    /// Whether the key length and the stored /U entry let the password
    /// checks run: a key of at least one byte, and a /U entry as long as the
    /// part of it that the user check compares.
    pub fn can_check_passwords(&self, doc: &Document) -> (r: bool)
        ensures
            r == (self.key_fits() && self.stored_user_fits(encrypt_dict(*doc))),
    {
        let fits = match self.key_len() {
            Ok(n) => n > 0,
            Err(_) => true,
        };
        if !fits {
            return false;
        }
        match doc.get_encrypted() {
            Ok(d) => match d.get(u_key().as_slice()) {
                Ok(Object::String(s, _)) => s.len() >= if self.revision == 2 { 32 } else { 16 },
                _ => true,
            },
            Err(_) => true,
        }
    }

    /// Authenticate the user password.
    pub fn authenticate_user_password(&self, doc: &Document, user_password: &[u8]) -> (r: Result<(), DecryptionError>)
        requires
            self.key_fits(),
            self.stored_user_fits(encrypt_dict(*doc)),
        ensures
            revision_r4(self.revision) ==> r == self.user_check(doc.trailer@, encrypt_dict(*doc), user_password@),
            !revision_r4(self.revision) ==> r == Err::<(), DecryptionError>(DecryptionError::UnsupportedRevision),
    {
        if 2 <= self.revision && self.revision <= 4 {
            self.authenticate_user_password_r4(doc, user_password)
        } else {
            Err(DecryptionError::UnsupportedRevision)
        }
    }

    /// Authenticate the owner password.
    pub fn authenticate_owner_password(&self, doc: &Document, owner_password: &[u8]) -> (r: Result<(), DecryptionError>)
        requires
            self.key_fits(),
            self.stored_user_fits(encrypt_dict(*doc)),
        ensures
            revision_r4(self.revision) ==> r == self.owner_check(doc.trailer@, encrypt_dict(*doc), owner_password@),
            !revision_r4(self.revision) ==> r == Err::<(), DecryptionError>(DecryptionError::UnsupportedRevision),
    {
        if 2 <= self.revision && self.revision <= 4 {
            self.authenticate_owner_password_r4(doc, owner_password)
        } else {
            Err(DecryptionError::UnsupportedRevision)
        }
    }
}

/// The algorithm that an encryption dictionary names: its /Length, where
/// that is a non-negative integer or missing, and its /R, an integer.
pub open spec fn dict_algorithm(dict: Seq<(Seq<u8>, Object)>) -> Option<PasswordAlgorithm> {
    let length: Option<Option<usize>> = match entries_get(dict, length_bytes()) {
        Some(Object::Integer(l)) => if l < 0 { None } else { Some(Some(l as usize)) },
        Some(_) => None,
        None => Some(None),
    };
    match (length, entries_get(dict, r_bytes())) {
        (Some(length), Some(Object::Integer(v))) => Some(PasswordAlgorithm { length, revision: v }),
        _ => None,
    }
}

/// Whether `r` is the algorithm with length `length` and the revision of
/// `dict`.
pub open spec fn algorithm_with(r: Result<PasswordAlgorithm, Error>, dict: Seq<(Seq<u8>, Object)>, length: Option<usize>) -> bool {
    match entries_get(dict, r_bytes()) {
        Some(Object::Integer(v)) => r == Ok::<PasswordAlgorithm, Error>(PasswordAlgorithm { length, revision: v }),
        Some(_) => r == Err::<PasswordAlgorithm, Error>(Error::Decryption(DecryptionError::InvalidType)),
        None => r == Err::<PasswordAlgorithm, Error>(Error::Decryption(DecryptionError::MissingRevision)),
    }
}

} // verus!
