//! The standard security handler of PDF: passwords, keys and the encryption
//! of strings and streams.

pub mod rc4;
pub mod algorithms;

use vstd::prelude::*;
use crate::object::{Object, ObjectId, PdfValue, Dictionary, Stream, entries_get, entries_set, dict_pairs, pairs_values,
    object_value, values_of, lemma_array_value, lemma_dictionary_value, lemma_stream_value, lemma_pairs_values_set,
    lemma_dictionary_decreases, lemma_entries_get_values, copy_bytes, clone_dictionary};
use crate::names::{type_bytes, xref_bytes, xref_key, filter_bytes, crypt_bytes, crypt_key, decode_parms_bytes,
    decode_parms_key, name_entry_bytes, name_entry_key, length_bytes, length_key};
use crate::encryption::algorithms::{md5, PasswordAlgorithm, string_entry};
use crate::document::{Document, encrypt_dict, object_of};
use crate::error::Error;
use crate::names::{o_bytes, o_key, u_bytes, u_key, oe_bytes, oe_key, ue_bytes, ue_key, p_bytes, p_key, stm_f_bytes,
    stm_f_key, str_f_bytes, str_f_key, cf_bytes, cf_key, cfm_bytes, cfm_key, v2_bytes, identity_method_bytes,
    standard_bytes, standard_key, encrypt_bytes, encrypt_key, encrypt_metadata_bytes, encrypt_metadata_key,
    metadata_bytes, filter_key};
use crate::encryption::rc4::rc4;

verus! {

/// Why a document could not be decrypted or encrypted.
#[derive(Debug, Clone, Copy, PartialEq, Eq, Structural)]
pub enum DecryptionError {
    /// The /Encrypt dictionary is missing.
    MissingEncryptDictionary,
    /// Missing encryption revision.
    MissingRevision,
    /// Missing the owner password (/O).
    MissingOwnerPassword,
    /// Missing the user password (/U).
    MissingUserPassword,
    /// Missing the permissions field (/P).
    MissingPermissions,
    /// Missing the file /ID elements.
    MissingFileID,
    /// Missing the key length (/Length).
    MissingKeyLength,
    /// Invalid key length.
    InvalidKeyLength,
    /// Invalid ciphertext length.
    InvalidCipherTextLength,
    /// Invalid revision.
    InvalidRevision,
    /// Unexpected type; document does not comply with the spec.
    InvalidType,
    /// The object is not capable of being decrypted.
    NotDecryptable,
    /// The supplied password is incorrect.
    IncorrectPassword,
    /// The document uses an encryption scheme that is not implemented.
    UnsupportedEncryption,
    /// The encryption revision is not implemented.
    UnsupportedRevision,
}

/// What a document allows: the permission bits of its /P entry.
#[derive(Debug, Clone, Copy, PartialEq, Eq, Structural)]
pub struct Permissions {
    bits: u64,
}

/// (Security handlers of revision 2) Print the document. (Revision 3 or
/// greater) Print the document, possibly not at the highest quality level.
pub const PRINTABLE: u64 = 8;
/// Modify the contents of the document by operations other than those
/// controlled by `ANNOTABLE`, `FILLABLE` and `ASSEMBLABLE`.
pub const MODIFIABLE: u64 = 16;
/// Copy or otherwise extract text and graphics from the document.
pub const COPYABLE: u64 = 32;
/// Add or modify text annotations, fill in interactive form fields.
pub const ANNOTABLE: u64 = 64;
/// Fill in existing interactive fields, even if `ANNOTABLE` is clear.
pub const FILLABLE: u64 = 512;
/// Copy or extract text and graphics for assistive technology.
pub const COPYABLE_FOR_ACCESSIBILITY: u64 = 1024;
/// (Revision 3 or greater) Assemble the document.
pub const ASSEMBLABLE: u64 = 2048;
/// (Revision 3 or greater) Print the document faithfully.
pub const PRINTABLE_IN_HIGH_QUALITY: u64 = 4096;

/// The bits that name a permission.
pub open spec fn permission_bits() -> u64 {
    PRINTABLE | MODIFIABLE | COPYABLE | ANNOTABLE | FILLABLE | COPYABLE_FOR_ACCESSIBILITY | ASSEMBLABLE
        | PRINTABLE_IN_HIGH_QUALITY
}

/// The bits of /P that are reserved and must be 1: bits 7 and 8, 13 to 32,
/// and the upper 32 bits that extend the value to 64 bits.
pub open spec fn reserved_bits() -> u64 {
    (3u64 << 7u64) | (7u64 << 13u64) | (0xffffu64 << 16u64) | (0xffffffffu64 << 32u64)
}

impl Permissions {
    #[verifier::type_invariant]
    spec fn only_permissions(self) -> bool {
        self.bits & permission_bits() == self.bits
    }

    /// The permissions of `bits`, bits that name no permission dropped.
    pub fn from_bits_truncate(bits: u64) -> (r: Permissions)
        ensures
            r.bits() == bits & permission_bits(),
    {
        let masked = bits & (PRINTABLE | MODIFIABLE | COPYABLE | ANNOTABLE | FILLABLE
            | COPYABLE_FOR_ACCESSIBILITY | ASSEMBLABLE | PRINTABLE_IN_HIGH_QUALITY);
        assert(masked & permission_bits() == masked) by (bit_vector)
            requires
                masked == bits & permission_bits(),
        ;
        Permissions { bits: masked }
    }


    /// The permission bits.
    pub closed spec fn bits(&self) -> u64 {
        self.bits
    }

    /// The permission bits.
    pub fn get_bits(&self) -> (r: u64)
        ensures
            r == self.bits(),
    {
        self.bits
    }

    /// Whether all permissions of `flags` are granted.
    pub fn contains(&self, flags: u64) -> (r: bool)
        ensures
            r == (self.bits() & flags == flags & permission_bits()),
    {
        self.bits & flags == flags & (PRINTABLE | MODIFIABLE | COPYABLE | ANNOTABLE | FILLABLE
            | COPYABLE_FOR_ACCESSIBILITY | ASSEMBLABLE | PRINTABLE_IN_HIGH_QUALITY)
    }

    /// The value of /P: the permission bits with the reserved bits set.
    pub fn p_value(&self) -> (r: u64)
        ensures
            r == self.bits() | reserved_bits(),
            r & permission_bits() == self.bits(),
    {
        proof {
            use_type_invariant(self);
            let b = self.bits;
            assert((b | reserved_bits()) & permission_bits() == b) by (bit_vector)
                requires
                    b & permission_bits() == b,
            ;
        }
        let reserved: u64 = (3u64 << 7u64) | (7u64 << 13u64) | (0xffffu64 << 16u64) | (0xffffffffu64 << 32u64);
        self.bits | reserved
    }
}

/// How strings and streams are encrypted.
#[derive(Debug, Clone, Copy, PartialEq, Eq, Structural)]
pub enum CryptFilter {
    /// No encryption.
    Identity,
    /// RC4 with a key for each object.
    Rc4,
}

/// What the security handler knows of a decrypted document.
#[derive(Debug)]
pub struct EncryptionState {
    /// The crypt filters of /CF, by name.
    pub crypt_filters: Vec<(Vec<u8>, CryptFilter)>,
    pub file_encryption_key: Vec<u8>,
    pub stream_filter: Vec<u8>,
    pub string_filter: Vec<u8>,
    pub owner_value: Vec<u8>,
    pub owner_encrypted: Vec<u8>,
    pub user_value: Vec<u8>,
    pub user_encrypted: Vec<u8>,
    pub permissions: Permissions,
}

/// The key for object `id` (Algorithm 1): MD5 of the file key, the low three
/// bytes of the object number and the low two of the generation number, cut
/// to five bytes more than the file key, at most 16.
pub open spec fn object_key(file_key: Seq<u8>, id: ObjectId) -> Seq<u8> {
    let input = file_key + seq![(id.0 % 256) as u8, ((id.0 / 256) % 256) as u8, ((id.0 / 65536) % 256) as u8,
        (id.1 % 256) as u8, (id.1 / 256) as u8];
    let n = if file_key.len() + 5 < 16 { file_key.len() + 5 } else { 16 };
    md5(input).subrange(0, n as int)
}

/// The bytes that follow the file key in the input of an object key, as
/// Algorithm 1 lays them out: the object number's bytes from the lowest
/// (bits 0-7, 8-15, 16-23), then the generation number's, lowest first.
pub open spec fn object_id_bytes(num: u32, generation: u16) -> Seq<u8> {
    seq![(num & 0xff) as u8, ((num >> 8) & 0xff) as u8, ((num >> 16) & 0xff) as u8,
        (generation & 0xff) as u8, (generation >> 8) as u8]
}

/// The key of an object is the MD5 digest of the file key followed by the
/// object number's three low bytes, lowest first, and the generation
/// number's two bytes, lowest first, cut to five bytes more than the file
/// key and at most 16.
pub proof fn lemma_object_key_layout(file_key: Seq<u8>, id: ObjectId)
    ensures
        object_key(file_key, id) == md5(file_key + object_id_bytes(id.0, id.1)).subrange(0,
            if file_key.len() + 5 < 16 { file_key.len() + 5int } else { 16int }),
{
    let (num, generation) = id;
    assert((num % 256) as u8 == (num & 0xff) as u8) by (bit_vector);
    assert(((num / 256) % 256) as u8 == ((num >> 8) & 0xff) as u8) by (bit_vector);
    assert(((num / 65536) % 256) as u8 == ((num >> 16) & 0xff) as u8) by (bit_vector);
    assert((generation % 256) as u8 == (generation & 0xff) as u8) by (bit_vector);
    assert((generation / 256) as u8 == (generation >> 8) as u8) by (bit_vector);
    assert(object_id_bytes(num, generation) =~= seq![(num % 256) as u8, ((num / 256) % 256) as u8,
        ((num / 65536) % 256) as u8, (generation % 256) as u8, (generation / 256) as u8]);
}

/// What a crypt filter makes of `data` with the file key `file_key` for
/// object `id`; encryption and decryption are the same.
pub open spec fn filtered(filter: CryptFilter, file_key: Seq<u8>, id: ObjectId, data: Seq<u8>) -> Seq<u8> {
    match filter {
        CryptFilter::Identity => data,
        CryptFilter::Rc4 => rc4(object_key(file_key, id), data),
    }
}

impl CryptFilter {
    /// The key that this filter uses for object `obj_id`.
    pub fn compute_key(&self, key: &[u8], obj_id: ObjectId) -> (r: Result<Vec<u8>, DecryptionError>)
        ensures
            match *self {
                CryptFilter::Identity => r matches Ok(k) && k@ == key@,
                CryptFilter::Rc4 => r matches Ok(k) && k@ == object_key(key@, obj_id) && k@.len() > 0
                    && k@ == md5(key@ + object_id_bytes(obj_id.0, obj_id.1)).subrange(0,
                        if key@.len() + 5 < 16 { key@.len() + 5int } else { 16int }),
            },
    {
        match self {
            CryptFilter::Identity => Ok(copy_slice(key)),
            CryptFilter::Rc4 => {
                let mut input = copy_slice(key);
                let (num, generation) = obj_id;
                input.push((num % 256) as u8);
                input.push(((num / 256) % 256) as u8);
                input.push(((num / 65536) % 256) as u8);
                input.push((generation % 256) as u8);
                input.push((generation / 256) as u8);
                assert(input@ =~= key@ + seq![(num % 256) as u8, ((num / 256) % 256) as u8,
                    ((num / 65536) % 256) as u8, (generation % 256) as u8, (generation / 256) as u8]);
                proof {
                    lemma_object_key_layout(key@, obj_id);
                }
                let hash = crate::encryption::algorithms::md5_digest(input.as_slice());
                let n = if key.len() < 11 { key.len() + 5 } else { 16 };
                let mut out: Vec<u8> = Vec::new();
                let mut i: usize = 0;
                while i < n
                    invariant
                        n <= 16,
                        hash@.len() == 16,
                        i <= n,
                        out@ == hash@.subrange(0, i as int),
                    decreases n - i,
                {
                    out.push(hash[i]);
                    i = i + 1;
                    assert(out@ =~= hash@.subrange(0, i as int));
                }
                Ok(out)
            },
        }
    }

    /// Encrypts `plaintext` with `key`.
    pub fn encrypt(&self, key: &[u8], plaintext: &[u8]) -> (r: Result<Vec<u8>, DecryptionError>)
        requires
            *self is Rc4 ==> key@.len() > 0,
        ensures
            match *self {
                CryptFilter::Identity => r matches Ok(v) && v@ == plaintext@,
                CryptFilter::Rc4 => r matches Ok(v) && v@ == rc4(key@, plaintext@),
            },
    {
        match self {
            CryptFilter::Identity => Ok(copy_slice(plaintext)),
            CryptFilter::Rc4 => Ok(crate::encryption::rc4::Rc4::new(key).encrypt(plaintext)),
        }
    }

    /// Decrypts `ciphertext` with `key`.
    pub fn decrypt(&self, key: &[u8], ciphertext: &[u8]) -> (r: Result<Vec<u8>, DecryptionError>)
        requires
            *self is Rc4 ==> key@.len() > 0,
        ensures
            match *self {
                CryptFilter::Identity => r matches Ok(v) && v@ == ciphertext@,
                CryptFilter::Rc4 => r matches Ok(v) && v@ == rc4(key@, ciphertext@),
            },
    {
        match self {
            CryptFilter::Identity => Ok(copy_slice(ciphertext)),
            CryptFilter::Rc4 => Ok(crate::encryption::rc4::Rc4::new(key).decrypt(ciphertext)),
        }
    }
}

/// A copy of `v`.
fn copy_slice(v: &[u8]) -> (r: Vec<u8>)
    ensures
        r@ == v@,
{
    let mut out: Vec<u8> = Vec::new();
    let mut i: usize = 0;
    while i < v.len()
        invariant
            i <= v@.len(),
            out@ == v@.subrange(0, i as int),
        decreases v@.len() - i,
    {
        out.push(v[i]);
        i = i + 1;
        assert(out@ =~= v@.subrange(0, i as int));
    }
    assert(v@.subrange(0, v@.len() as int) =~= v@);
    out
}

/// The crypt filters of a state, each name taken by its bytes.
pub open spec fn filters_view(state: EncryptionState) -> Seq<(Seq<u8>, CryptFilter)> {
    Seq::new(state.crypt_filters@.len(), |i: int| (state.crypt_filters@[i].0@, state.crypt_filters@[i].1))
}

/// The crypt filter named `name`, RC4 where there is none.
pub open spec fn named_filter(state: EncryptionState, name: Seq<u8>) -> CryptFilter {
    match entries_get(filters_view(state), name) {
        Some(f) => f,
        None => CryptFilter::Rc4,
    }
}

/// The names that a /Filter value gives: one name, or an array of names.
pub open spec fn value_filter_names(v: PdfValue) -> Option<Seq<Seq<u8>>> {
    match v {
        PdfValue::Name(n) => Some(seq![n]),
        PdfValue::Array(items) => if forall|i: int| 0 <= i < items.len() ==> #[trigger] items[i] is Name {
            Some(Seq::new(items.len(), |i: int| items[i]->Name_0))
        } else {
            None
        },
        _ => None,
    }
}

/// The crypt filter that a stream with dictionary `entries` names for
/// itself: where its filters hold `Crypt` and its /DecodeParms is a
/// dictionary, the filter of its /Name, Identity where there is none.
pub open spec fn stream_override(state: EncryptionState, entries: Seq<(Seq<u8>, PdfValue)>) -> Option<CryptFilter> {
    match entries_get(entries, filter_bytes()) {
        Some(f) => match value_filter_names(f) {
            Some(names) => if names.contains(crypt_bytes()) {
                match entries_get(entries, decode_parms_bytes()) {
                    Some(PdfValue::Dictionary(d)) => Some(match entries_get(d, name_entry_bytes()) {
                        Some(PdfValue::Name(n)) => match entries_get(filters_view(state), n) {
                            Some(cf) => cf,
                            None => CryptFilter::Identity,
                        },
                        _ => CryptFilter::Identity,
                    }),
                    _ => None,
                }
            } else {
                None
            },
            None => None,
        },
        None => None,
    }
}

/// Whether a stream dictionary is that of a cross-reference stream.
pub open spec fn is_xref_stream(entries: Seq<(Seq<u8>, PdfValue)>) -> bool {
    entries_get(entries, type_bytes()) == Some(PdfValue::Name(xref_bytes()))
}

/// A value with its strings and stream contents passed through the crypt
/// filters of `state` for object `id`. Arrays and dictionaries are passed
/// through element by element; the dictionaries of streams are not, and
/// cross-reference streams stay as they are.
pub open spec fn crypted(state: EncryptionState, id: ObjectId, v: PdfValue) -> PdfValue
    decreases v, 0nat,
{
    match v {
        PdfValue::Str(t, f) => PdfValue::Str(filtered(named_filter(state, state.string_filter@), state.file_encryption_key@, id, t), f),
        PdfValue::Stream(entries, content) => if is_xref_stream(entries) {
            v
        } else {
            let filter = match stream_override(state, entries) {
                Some(f) => f,
                None => named_filter(state, state.stream_filter@),
            };
            let c = filtered(filter, state.file_encryption_key@, id, content);
            PdfValue::Stream(entries_set(entries, length_bytes(), PdfValue::Integer(c.len() as i64)), c)
        },
        PdfValue::Array(items) => PdfValue::Array(crypted_items(state, id, items, items.len())),
        PdfValue::Dictionary(entries) => PdfValue::Dictionary(crypted_entries(state, id, entries, entries.len())),
        _ => v,
    }
}

/// The first `n` elements passed through the crypt filters.
pub open spec fn crypted_items(state: EncryptionState, id: ObjectId, items: Seq<PdfValue>, n: nat) -> Seq<PdfValue>
    decreases items, n,
{
    if n == 0 || n > items.len() {
        Seq::empty()
    } else {
        crypted_items(state, id, items, (n - 1) as nat).push(crypted(state, id, items[n - 1]))
    }
}

/// The first `n` entries with their values passed through the crypt filters.
pub open spec fn crypted_entries(state: EncryptionState, id: ObjectId, entries: Seq<(Seq<u8>, PdfValue)>, n: nat)
    -> Seq<(Seq<u8>, PdfValue)>
    decreases entries, n,
{
    if n == 0 || n > entries.len() {
        Seq::empty()
    } else {
        crypted_entries(state, id, entries, (n - 1) as nat).push((entries[n - 1].0, crypted(state, id, entries[n - 1].1)))
    }
}

impl EncryptionState {
    /// The crypt filter named `name`, RC4 where there is none.
    fn filter_named(&self, name: &[u8]) -> (r: CryptFilter)
        ensures
            r == named_filter(*self, name@),
    {
        match self.lookup(name) {
            Some(f) => f,
            None => CryptFilter::Rc4,
        }
    }

    /// The crypt filter named `name`, if any.
    fn lookup(&self, name: &[u8]) -> (r: Option<CryptFilter>)
        ensures
            r == entries_get(filters_view(*self), name@),
    {
        let ghost fv = filters_view(*self);
        proof {
            crate::object::lemma_find_key(fv, name@);
        }
        let mut i: usize = 0;
        while i < self.crypt_filters.len()
            invariant
                fv == filters_view(*self),
                i <= self.crypt_filters@.len(),
                fv.len() == self.crypt_filters@.len(),
                forall|j: int| 0 <= j < i ==> fv[j].0 != name@,
            decreases self.crypt_filters@.len() - i,
        {
            if crate::object::bytes_equal(self.crypt_filters[i].0.as_slice(), name) {
                proof {
                    crate::object::lemma_find_key(fv, name@);
                    match crate::object::find_key(fv, name@) {
                        Some(k) => {
                            if k < i {
                                assert(fv[k].0 != name@);
                            } else if k > i {
                                assert(fv[i as int].0 == name@);
                            }
                        },
                        None => {
                            assert(fv[i as int].0 == name@);
                        },
                    }
                }
                return Some(self.crypt_filters[i].1);
            }
            i = i + 1;
        }
        None
    }

    /// The crypt filter for streams.
    pub fn get_stream_filter(&self) -> (r: CryptFilter)
        ensures
            r == named_filter(*self, self.stream_filter@),
    {
        self.filter_named(self.stream_filter.as_slice())
    }

    /// The crypt filter for strings.
    pub fn get_string_filter(&self) -> (r: CryptFilter)
        ensures
            r == named_filter(*self, self.string_filter@),
    {
        self.filter_named(self.string_filter.as_slice())
    }
}

proof fn lemma_filter_names_value(f: Object)
    ensures
        value_filter_names(object_value(f)) == crate::object::filter_names(f),
{
    match f {
        Object::Array(a) => {
            lemma_array_value(a);
            let items = values_of(a@);
            assert(forall|i: int| 0 <= i < items.len() ==> (#[trigger] items[i] is Name <==> a@[i] is Name));
            if forall|i: int| 0 <= i < a@.len() ==> #[trigger] a@[i] is Name {
                assert(Seq::new(items.len(), |i: int| items[i]->Name_0) =~= Seq::new(a@.len(), |i: int| a@[i]->Name_0@));
            } else {
                let k = choose|i: int| 0 <= i < a@.len() && !(#[trigger] a@[i] is Name);
                assert(!(items[k] is Name));
            }
        },
        _ => {},
    }
}

/// The crypt filter for the content of stream `st`.
fn stream_filter_for(state: &EncryptionState, st: &Stream) -> (r: CryptFilter)
    ensures
        r == match stream_override(*state, pairs_values(dict_pairs(st.dict))) {
            Some(f) => f,
            None => named_filter(*state, state.stream_filter@),
        },
{
    let ghost entries = pairs_values(dict_pairs(st.dict));
    proof {
        lemma_entries_get_values(dict_pairs(st.dict), filter_bytes());
        lemma_entries_get_values(dict_pairs(st.dict), decode_parms_bytes());
        if let Some(f) = entries_get(st.dict@, filter_bytes()) {
            lemma_filter_names_value(f);
        }
    }
    let default = state.get_stream_filter();
    let has_crypt = match st.filters() {
        Ok(names) => {
            let crypt = crypt_key();
            let mut found = false;
            let mut i: usize = 0;
            while i < names.len()
                invariant
                    i <= names@.len(),
                    crypt@ == crypt_bytes(),
                    found <==> exists|j: int| 0 <= j < i && names@[j]@ == crypt_bytes(),
                decreases names@.len() - i,
            {
                if crate::object::bytes_equal(names[i], crypt.as_slice()) {
                    found = true;
                }
                i = i + 1;
            }
            proof {
                let all = crate::object::filter_names(entries_get(st.dict@, filter_bytes())->0)->0;
                if found {
                    let j = choose|j: int| 0 <= j < names@.len() && names@[j]@ == crypt_bytes();
                    assert(all[j] == crypt_bytes());
                } else {
                    assert forall|j: int| 0 <= j < all.len() implies all[j] != crypt_bytes() by {
                        assert(names@[j]@ == all[j]);
                    }
                }
            }
            found
        },
        Err(_) => false,
    };
    if !has_crypt {
        return default;
    }
    let parms = match st.dict.get(decode_parms_key().as_slice()) {
        Ok(o) => o,
        Err(_) => {
            return default;
        },
    };
    let d = match parms.as_dict() {
        Ok(d) => d,
        Err(_) => {
            return default;
        },
    };
    proof {
        lemma_dictionary_value(*d);
        lemma_entries_get_values(dict_pairs(*d), name_entry_bytes());
    }
    match d.get(name_entry_key().as_slice()) {
        Ok(Object::Name(n)) => match state.lookup(n.as_slice()) {
            Some(cf) => cf,
            None => CryptFilter::Identity,
        },
        _ => CryptFilter::Identity,
    }
}

/// Whether a stream is a cross-reference stream.
fn xref_stream(st: &Stream) -> (r: bool)
    ensures
        r == is_xref_stream(pairs_values(dict_pairs(st.dict))),
{
    proof {
        lemma_entries_get_values(dict_pairs(st.dict), type_bytes());
    }
    st.dict.has_type(xref_key().as_slice())
}

/// A copy of `o` with its strings and stream contents passed through the
/// crypt filters of `state` for object `id`, encrypting or decrypting.
#[verifier::loop_isolation(false)]
fn crypt_copy(state: &EncryptionState, id: ObjectId, o: &Object, encrypt: bool) -> (r: Result<Object, DecryptionError>)
    ensures
        r matches Ok(c) && c@ == crypted(*state, id, o@) && crate::object::same_stream_flags(c, *o),
    decreases o,
{
    match o {
        Object::String(t, f) => {
            let filter = state.get_string_filter();
            let key = filter.compute_key(state.file_encryption_key.as_slice(), id)?;
            let data = if encrypt {
                filter.encrypt(key.as_slice(), t.as_slice())?
            } else {
                filter.decrypt(key.as_slice(), t.as_slice())?
            };
            Ok(Object::String(data, *f))
        },
        Object::Stream(st) => {
            proof {
                lemma_stream_value(*st);
            }
            if xref_stream(st) {
                return Ok(crate::object::clone_object(o));
            }
            let filter = stream_filter_for(state, st);
            let key = filter.compute_key(state.file_encryption_key.as_slice(), id)?;
            let data = if encrypt {
                filter.encrypt(key.as_slice(), st.content.as_slice())?
            } else {
                filter.decrypt(key.as_slice(), st.content.as_slice())?
            };
            let mut copy = Stream {
                dict: clone_dictionary(&st.dict),
                content: copy_bytes(&st.content),
                allows_compression: st.allows_compression,
                start_position: st.start_position,
            };
            let ghost before = dict_pairs(copy.dict);
            let ghost len = data@.len();
            copy.set_content(data);
            proof {
                lemma_stream_value(copy);
                lemma_pairs_values_set(before, dict_pairs(copy.dict), length_bytes(), Object::Integer(len as i64));
            }
            Ok(Object::Stream(copy))
        },
        Object::Array(v) => {
            let mut out: Vec<Object> = Vec::new();
            let mut i: usize = 0;
            while i < v.len()
                invariant
                    i <= v@.len(),
                    values_of(out@) == crypted_items(*state, id, values_of(v@), i as nat),
                decreases v@.len() - i,
            {
                proof {
                    assert(decreases_to!(*v => v[i as int]));
                }
                let c = crypt_copy(state, id, &v[i], encrypt)?;
                let ghost before = out@;
                out.push(c);
                i = i + 1;
                assert(values_of(out@) =~= values_of(before).push(object_value(c)));
            }
            proof {
                lemma_array_value(*v);
                lemma_array_value(out);
            }
            Ok(Object::Array(out))
        },
        Object::Dictionary(d) => {
            let pairs = d.entries();
            let mut out: Vec<(Vec<u8>, Object)> = Vec::new();
            let mut i: usize = 0;
            while i < pairs.len()
                invariant
                    pairs@ == dict_pairs(*d),
                    i <= pairs@.len(),
                    pairs_values(out@) == crypted_entries(*state, id, pairs_values(pairs@), i as nat),
                decreases pairs@.len() - i,
            {
                proof {
                    lemma_dictionary_decreases(*d, i as int);
                }
                let c = crypt_copy(state, id, &pairs[i].1, encrypt)?;
                let ghost before = out@;
                out.push((copy_bytes(&pairs[i].0), c));
                i = i + 1;
                assert(pairs_values(out@) =~= pairs_values(before).push((pairs@[i - 1].0@, object_value(c))));
            }
            let r = Dictionary::of_entries(out);
            proof {
                lemma_dictionary_value(*d);
                lemma_dictionary_value(r);
            }
            Ok(Object::Dictionary(r))
        },
        _ => Ok(crate::object::clone_object(o)),
    }
}

/// Encrypts `obj`, its strings and stream contents passed through the crypt
/// filters of `state` for object `obj_id`.
pub fn encrypt_object(state: &EncryptionState, obj_id: ObjectId, obj: &mut Object) -> (r: Result<(), DecryptionError>)
    ensures
        r is Ok,
        final(obj)@ == crypted(*state, obj_id, old(obj)@),
        crate::object::same_stream_flags(*final(obj), *old(obj)),
{
    let c = crypt_copy(state, obj_id, obj, true)?;
    *obj = c;
    Ok(())
}

/// Decrypts `obj`, its strings and stream contents passed through the crypt
/// filters of `state` for object `obj_id`.
pub fn decrypt_object(state: &EncryptionState, obj_id: ObjectId, obj: &mut Object) -> (r: Result<(), DecryptionError>)
    ensures
        r is Ok,
        final(obj)@ == crypted(*state, obj_id, old(obj)@),
        crate::object::same_stream_flags(*final(obj), *old(obj)),
{
    let c = crypt_copy(state, obj_id, obj, false)?;
    *obj = c;
    Ok(())
}

/// Whether each stream within `v`, cross-reference streams aside, has a
/// /Length entry that is the length of its content.
pub open spec fn lengths_current(v: PdfValue) -> bool
    decreases v, 0nat,
{
    match v {
        PdfValue::Stream(entries, content) => is_xref_stream(entries)
            || entries_get(entries, length_bytes()) == Some(PdfValue::Integer(content.len() as i64)),
        PdfValue::Array(items) => items_current(items, items.len()),
        PdfValue::Dictionary(entries) => entries_current(entries, entries.len()),
        _ => true,
    }
}

/// Whether the first `n` elements have current lengths.
pub open spec fn items_current(items: Seq<PdfValue>, n: nat) -> bool
    decreases items, n,
{
    if n == 0 || n > items.len() {
        true
    } else {
        items_current(items, (n - 1) as nat) && lengths_current(items[n - 1])
    }
}

/// Whether the values of the first `n` entries have current lengths.
pub open spec fn entries_current(entries: Seq<(Seq<u8>, PdfValue)>, n: nat) -> bool
    decreases entries, n,
{
    if n == 0 || n > entries.len() {
        true
    } else {
        entries_current(entries, (n - 1) as nat) && lengths_current(entries[n - 1].1)
    }
}

proof fn lemma_filtered(filter: CryptFilter, file_key: Seq<u8>, id: ObjectId, data: Seq<u8>)
    ensures
        filtered(filter, file_key, id, data).len() == data.len(),
        filtered(filter, file_key, id, filtered(filter, file_key, id, data)) == data,
{
    if filter is Rc4 {
        crate::encryption::rc4::lemma_rc4_len(object_key(file_key, id), data);
        crate::encryption::rc4::lemma_rc4_involution(object_key(file_key, id), data);
    }
}

proof fn lemma_set_present<V>(entries: Seq<(Seq<u8>, V)>, key: Seq<u8>, value: V)
    requires
        entries_get(entries, key) == Some(value),
    ensures
        entries_set(entries, key, value) == entries,
{
    crate::object::lemma_find_key(entries, key);
    let i = crate::object::find_key(entries, key)->0;
    assert(entries.update(i, (key, value)) =~= entries);
}

proof fn lemma_crypted_items(state: EncryptionState, id: ObjectId, items: Seq<PdfValue>, n: nat)
    requires
        n <= items.len(),
    ensures
        crypted_items(state, id, items, n).len() == n,
        forall|i: int| 0 <= i < n ==> #[trigger] crypted_items(state, id, items, n)[i] == crypted(state, id, items[i]),
        items_current(items, n) <==> forall|i: int| 0 <= i < n ==> lengths_current(#[trigger] items[i]),
    decreases n,
{
    if n > 0 {
        lemma_crypted_items(state, id, items, (n - 1) as nat);
    }
}

proof fn lemma_crypted_entries(state: EncryptionState, id: ObjectId, entries: Seq<(Seq<u8>, PdfValue)>, n: nat)
    requires
        n <= entries.len(),
    ensures
        crypted_entries(state, id, entries, n).len() == n,
        forall|i: int| 0 <= i < n ==> #[trigger] crypted_entries(state, id, entries, n)[i]
            == (entries[i].0, crypted(state, id, entries[i].1)),
        entries_current(entries, n) <==> forall|i: int| 0 <= i < n ==> lengths_current(#[trigger] entries[i].1),
    decreases n,
{
    if n > 0 {
        lemma_crypted_entries(state, id, entries, (n - 1) as nat);
    }
}

/// Decrypting what encryption gave, with the same state and object number,
/// gives back the value, where the /Length of each stream in it is the
/// length of its content.
pub proof fn lemma_decrypt_encrypted(state: EncryptionState, id: ObjectId, v: PdfValue)
    requires
        lengths_current(v),
    ensures
        crypted(state, id, crypted(state, id, v)) == v,
    decreases v,
{
    match v {
        PdfValue::Str(t, f) => {
            lemma_filtered(named_filter(state, state.string_filter@), state.file_encryption_key@, id, t);
        },
        PdfValue::Stream(entries, content) => {
            if !is_xref_stream(entries) {
                let filter = match stream_override(state, entries) {
                    Some(f) => f,
                    None => named_filter(state, state.stream_filter@),
                };
                lemma_filtered(filter, state.file_encryption_key@, id, content);
                let c = filtered(filter, state.file_encryption_key@, id, content);
                lemma_set_present(entries, length_bytes(), PdfValue::Integer(content.len() as i64));
                assert(c.len() == content.len());
            }
        },
        PdfValue::Array(items) => {
            let once = crypted_items(state, id, items, items.len());
            lemma_crypted_items(state, id, items, items.len());
            lemma_crypted_items(state, id, once, once.len());
            assert forall|i: int| 0 <= i < items.len() implies #[trigger] crypted(state, id, once[i]) == items[i] by {
                assert(lengths_current(items[i]));
                lemma_decrypt_encrypted(state, id, items[i]);
            }
            assert(crypted_items(state, id, once, once.len()) =~= items);
        },
        PdfValue::Dictionary(entries) => {
            let once = crypted_entries(state, id, entries, entries.len());
            lemma_crypted_entries(state, id, entries, entries.len());
            lemma_crypted_entries(state, id, once, once.len());
            assert forall|i: int| 0 <= i < entries.len() implies #[trigger] crypted(state, id, once[i].1) == entries[i].1 by {
                assert(lengths_current(entries[i].1));
                lemma_decrypt_encrypted(state, id, entries[i].1);
            }
            assert(crypted_entries(state, id, once, once.len()) =~= entries);
        },
        _ => {},
    }
}

/// The crypt filter that a crypt filter dictionary names by its /CFM: RC4
/// for `V2`, Identity for `None`; none for other methods, which this library
/// does not implement.
pub open spec fn filter_method(v: Object) -> Option<CryptFilter> {
    match v {
        Object::Dictionary(d) => match entries_get(d@, cfm_bytes()) {
            Some(Object::Name(m)) => if m@ == v2_bytes() {
                Some(CryptFilter::Rc4)
            } else if m@ == identity_method_bytes() {
                Some(CryptFilter::Identity)
            } else {
                None
            },
            _ => None,
        },
        _ => None,
    }
}

/// The crypt filters of the first `n` entries of a /CF dictionary, each
/// under its name, entries that name no known method left out.
pub open spec fn filters_of(entries: Seq<(Seq<u8>, Object)>, n: nat) -> Seq<(Seq<u8>, CryptFilter)>
    decreases n,
{
    if n == 0 || n > entries.len() {
        Seq::empty()
    } else {
        filters_of(entries, (n - 1) as nat) + match filter_method(entries[n - 1].1) {
            Some(f) => seq![(entries[n - 1].0, f)],
            None => Seq::empty(),
        }
    }
}

/// The crypt filters of a document: those of the /CF dictionary of its
/// encryption dictionary.
pub open spec fn document_filters(doc: Document) -> Seq<(Seq<u8>, CryptFilter)> {
    match encrypt_dict(doc) {
        Some(d) => match entries_get(d@, cf_bytes()) {
            Some(Object::Dictionary(cf)) => filters_of(cf@, cf@.len()),
            _ => Seq::empty(),
        },
        None => Seq::empty(),
    }
}

/// A name entry of a dictionary, or nothing.
pub open spec fn name_of(dict: Seq<(Seq<u8>, Object)>, key: Seq<u8>) -> Seq<u8> {
    match entries_get(dict, key) {
        Some(Object::Name(n)) => n@,
        _ => Seq::empty(),
    }
}

/// A byte string entry of a dictionary, or nothing.
pub open spec fn string_or_empty(dict: Seq<(Seq<u8>, Object)>, key: Seq<u8>) -> Seq<u8> {
    match entries_get(dict, key) {
        Some(Object::String(s, _)) => s@,
        _ => Seq::empty(),
    }
}

/// Whether the standard security handler can be set up for `doc` with
/// `password`: the encryption dictionary names the standard filter, gives a
/// key length and a revision this library implements, the file key follows
/// from the password, and /O, /U and /P are there with the right types.
pub open spec fn decode_succeeds(doc: Document, password: Seq<u8>) -> bool {
    match encrypt_dict(doc) {
        None => false,
        Some(d) => {
            &&& entries_get(d@, filter_bytes()) matches Some(Object::Name(_))
            &&& name_of(d@, filter_bytes()) == standard_bytes()
            &&& crate::encryption::algorithms::dict_algorithm(d@) matches Some(a)
                && crate::encryption::algorithms::revision_r4(a.revision)
                && a.file_key_r4(doc.trailer@, Some(d), password) is Ok
            &&& string_entry(d@, o_bytes(), DecryptionError::MissingOwnerPassword) is Ok
            &&& string_entry(d@, u_bytes(), DecryptionError::MissingUserPassword) is Ok
            &&& entries_get(d@, p_bytes()) matches Some(Object::Integer(_))
        },
    }
}

/// Whether `state` is what the encryption dictionary `d` of `doc` and the
/// password give, with the file key `key`.
pub open spec fn state_from(state: EncryptionState, doc: Document, d: Dictionary, key: Seq<u8>) -> bool {
    &&& state.file_encryption_key@ == key
    &&& string_entry(d@, o_bytes(), DecryptionError::MissingOwnerPassword) == Ok::<Seq<u8>, DecryptionError>(state.owner_value@)
    &&& state.owner_encrypted@ == string_or_empty(d@, oe_bytes())
    &&& string_entry(d@, u_bytes(), DecryptionError::MissingUserPassword) == Ok::<Seq<u8>, DecryptionError>(state.user_value@)
    &&& state.user_encrypted@ == string_or_empty(d@, ue_bytes())
    &&& entries_get(d@, p_bytes()) matches Some(Object::Integer(p)) && state.permissions.bits() == (p as u64) & permission_bits()
    &&& filters_view(state) == document_filters(doc)
    &&& state.stream_filter@ == name_of(d@, stm_f_bytes())
    &&& state.string_filter@ == name_of(d@, str_f_bytes())
}

fn copy_vec(v: &[u8]) -> (r: Vec<u8>)
    ensures
        r@ == v@,
{
    copy_slice(v)
}

fn name_entry(dict: &Dictionary, key: &[u8]) -> (r: Vec<u8>)
    ensures
        r@ == name_of(dict@, key@),
{
    match dict.get(key) {
        Ok(Object::Name(n)) => copy_slice(n.as_slice()),
        _ => Vec::new(),
    }
}

fn string_entry_or_empty(dict: &Dictionary, key: &[u8]) -> (r: Vec<u8>)
    ensures
        r@ == string_or_empty(dict@, key@),
{
    match dict.get(key) {
        Ok(Object::String(s, _)) => copy_slice(s.as_slice()),
        _ => Vec::new(),
    }
}

fn required_string(dict: &Dictionary, key: &[u8], missing: DecryptionError) -> (r: Result<Vec<u8>, DecryptionError>)
    ensures
        match string_entry(dict@, key@, missing) {
            Ok(s) => r matches Ok(v) && v@ == s,
            Err(e) => r == Err::<Vec<u8>, DecryptionError>(e),
        },
{
    match dict.get(key) {
        Ok(Object::String(s, _)) => Ok(copy_slice(s.as_slice())),
        Ok(_) => Err(DecryptionError::InvalidType),
        Err(_) => Err(missing),
    }
}

impl Document {
    /// The crypt filters of the /CF dictionary of the encryption dictionary,
    /// for the methods that this library implements.
    pub fn get_crypt_filters(&self) -> (r: Vec<(Vec<u8>, CryptFilter)>)
        ensures
            Seq::new(r@.len(), |i: int| (r@[i].0@, r@[i].1)) == document_filters(*self),
    {
        let mut out: Vec<(Vec<u8>, CryptFilter)> = Vec::new();
        let encrypted = match self.get_encrypted() {
            Ok(d) => d,
            Err(_) => {
                assert(Seq::new(out@.len(), |i: int| (out@[i].0@, out@[i].1)) =~= document_filters(*self));
                return out;
            },
        };
        let cf = match encrypted.get(cf_key().as_slice()) {
            Ok(Object::Dictionary(cf)) => cf,
            _ => {
                assert(Seq::new(out@.len(), |i: int| (out@[i].0@, out@[i].1)) =~= document_filters(*self));
                return out;
            },
        };
        let pairs = cf.entries();
        let mut i: usize = 0;
        while i < pairs.len()
            invariant
                pairs@ == dict_pairs(*cf),
                i <= pairs@.len(),
                Seq::new(out@.len(), |k: int| (out@[k].0@, out@[k].1)) == filters_of(cf@, i as nat),
            decreases pairs@.len() - i,
        {
            let method = match &pairs[i].1 {
                Object::Dictionary(d) => match d.get(cfm_key().as_slice()) {
                    Ok(Object::Name(m)) => {
                        if crate::object::bytes_equal(m.as_slice(), crate::names::v2_key().as_slice()) {
                            Some(CryptFilter::Rc4)
                        } else if crate::object::bytes_equal(m.as_slice(), crate::names::identity_method_key().as_slice()) {
                            Some(CryptFilter::Identity)
                        } else {
                            None
                        }
                    },
                    _ => None,
                },
                _ => None,
            };
            assert(method == filter_method(cf@[i as int].1));
            let ghost before = out@;
            match method {
                Some(f) => {
                    out.push((copy_slice(pairs[i].0.as_slice()), f));
                },
                None => {},
            }
            i = i + 1;
            assert(Seq::new(out@.len(), |k: int| (out@[k].0@, out@[k].1)) =~= filters_of(cf@, i as nat));
        }
        out
    }
}

impl EncryptionState {
    /// Reads the state of the standard security handler of an encrypted
    /// document, computing the file key from `password`.
    pub fn decode(document: &Document, password: &[u8]) -> (r: Result<EncryptionState, Error>)
        ensures
            r is Ok <==> decode_succeeds(*document, password@),
            encrypt_dict(*document) is None ==> r matches Err(Error::NotEncrypted),
            encrypt_dict(*document) matches Some(d) ==> {
                if !(entries_get(d@, filter_bytes()) matches Some(Object::Name(_))) {
                    r matches Err(Error::DictKey(k)) && k@ == seq!['F', 'i', 'l', 't', 'e', 'r']
                } else if name_of(d@, filter_bytes()) != standard_bytes() {
                    r matches Err(Error::UnsupportedSecurityHandler(h)) && h@ == name_of(d@, filter_bytes())
                } else {
                    &&& crate::encryption::algorithms::dict_algorithm(d@) matches Some(a) ==> {
                        if !crate::encryption::algorithms::revision_r4(a.revision) {
                            r == Err::<EncryptionState, Error>(Error::Decryption(DecryptionError::UnsupportedRevision))
                        } else {
                            match a.file_key_r4(document.trailer@, Some(d), password@) {
                                Err(e) => r == Err::<EncryptionState, Error>(Error::Decryption(e)),
                                Ok(_) => match string_entry(d@, o_bytes(), DecryptionError::MissingOwnerPassword) {
                                    Err(e) => r == Err::<EncryptionState, Error>(Error::Decryption(e)),
                                    Ok(_) => match string_entry(d@, u_bytes(), DecryptionError::MissingUserPassword) {
                                        Err(e) => r == Err::<EncryptionState, Error>(Error::Decryption(e)),
                                        Ok(_) => match entries_get(d@, p_bytes()) {
                                            Some(Object::Integer(_)) => r is Ok,
                                            Some(_) => r == Err::<EncryptionState, Error>(Error::Decryption(DecryptionError::InvalidType)),
                                            None => r == Err::<EncryptionState, Error>(Error::Decryption(DecryptionError::MissingPermissions)),
                                        },
                                    },
                                },
                            }
                        }
                    }
                    &&& r matches Ok(state) ==> crate::encryption::algorithms::dict_algorithm(d@) matches Some(algorithm)
                        && algorithm.file_key_r4(document.trailer@, Some(d), password@) == Ok::<Seq<u8>, DecryptionError>(state.file_encryption_key@)
                        && crate::encryption::algorithms::revision_r4(algorithm.revision)
                        && state_from(state, *document, d, state.file_encryption_key@)
                }
            },
    {
        let encrypted = match document.get_encrypted() {
            Ok(d) => d,
            Err(_) => {
                return Err(Error::NotEncrypted);
            },
        };
        let filter = match encrypted.get(filter_key().as_slice()) {
            Ok(Object::Name(n)) => n,
            _ => {
                let key = "Filter".to_string();
                proof {
                    reveal_strlit("Filter");
                }
                assert(key@ =~= seq!['F', 'i', 'l', 't', 'e', 'r']);
                return Err(Error::DictKey(key));
            },
        };
        if !crate::object::bytes_equal(filter.as_slice(), standard_key().as_slice()) {
            return Err(Error::UnsupportedSecurityHandler(copy_vec(filter.as_slice())));
        }
        let algorithm = PasswordAlgorithm::try_from(document)?;
        let file_encryption_key = match algorithm.compute_file_encryption_key(document, password) {
            Ok(k) => k,
            Err(e) => {
                return Err(Error::Decryption(e));
            },
        };
        let owner_value = match required_string(encrypted, o_key().as_slice(), DecryptionError::MissingOwnerPassword) {
            Ok(v) => v,
            Err(e) => {
                return Err(Error::Decryption(e));
            },
        };
        let owner_encrypted = string_entry_or_empty(encrypted, oe_key().as_slice());
        let user_value = match required_string(encrypted, u_key().as_slice(), DecryptionError::MissingUserPassword) {
            Ok(v) => v,
            Err(e) => {
                return Err(Error::Decryption(e));
            },
        };
        let user_encrypted = string_entry_or_empty(encrypted, ue_key().as_slice());
        let permission_value = match encrypted.get(p_key().as_slice()) {
            Ok(Object::Integer(v)) => *v as u64,
            Ok(_) => {
                return Err(Error::Decryption(DecryptionError::InvalidType));
            },
            Err(_) => {
                return Err(Error::Decryption(DecryptionError::MissingPermissions));
            },
        };
        let permissions = Permissions::from_bits_truncate(permission_value);
        let crypt_filters = document.get_crypt_filters();
        let stream_filter = name_entry(encrypted, stm_f_key().as_slice());
        let string_filter = name_entry(encrypted, str_f_key().as_slice());
        let state = EncryptionState {
            crypt_filters,
            file_encryption_key,
            stream_filter,
            string_filter,
            owner_value,
            owner_encrypted,
            user_value,
            user_encrypted,
            permissions,
        };
        assert(filters_view(state) =~= document_filters(*document));
        Ok(state)
    }
}

impl Document {
    /// Whether `password` opens the document, as its owner password or as
    /// its user password.
    pub open spec fn authenticate_password_spec(&self, password: Seq<u8>) -> bool {
        match encrypt_dict(*self) {
            None => false,
            Some(d) => match crate::encryption::algorithms::dict_algorithm(d@) {
                None => false,
                Some(a) => {
                    &&& a.key_fits()
                    &&& a.stored_user_fits(Some(d))
                    &&& crate::encryption::algorithms::revision_r4(a.revision)
                    &&& (a.owner_check(self.trailer@, Some(d), password) is Ok
                        || a.user_check(self.trailer@, Some(d), password) is Ok)
                },
            },
        }
    }

    /// Checks `password` against the encryption dictionary, as the owner
    /// password and else as the user password.
    pub fn authenticate_password(&self, password: &[u8]) -> (r: Result<(), Error>)
        ensures
            r is Ok <==> self.authenticate_password_spec(password@),
            encrypt_dict(*self) is None ==> r matches Err(Error::NotEncrypted),
    {
        if !self.is_encrypted() {
            return Err(Error::NotEncrypted);
        }
        let algorithm = PasswordAlgorithm::try_from(self)?;
        if !algorithm.can_check_passwords(self) {
            return Err(Error::Decryption(DecryptionError::InvalidKeyLength));
        }
        if algorithm.authenticate_owner_password(self, password).is_ok() {
            return Ok(());
        }
        match algorithm.authenticate_user_password(self, password) {
            Ok(()) => Ok(()),
            Err(e) => Err(Error::Decryption(e)),
        }
    }
}

/// The type name of an object: that of a dictionary or of a stream's
/// dictionary.
pub open spec fn object_type_name(o: Object) -> Option<Seq<u8>> {
    match o {
        Object::Dictionary(d) => crate::object::dict_type(d@),
        Object::Stream(s) => crate::object::dict_type(s.dict@),
        _ => None,
    }
}

pub fn type_name_of(o: &Object) -> (r: Option<&[u8]>)
    ensures
        match object_type_name(*o) {
            Some(t) => r matches Some(n) && n@ == t,
            None => r is None,
        },
{
    match o {
        Object::Dictionary(d) => d.get_type().ok(),
        Object::Stream(s) => s.dict.get_type().ok(),
        _ => None,
    }
}

/// Whether object `id` stays as it is when a document is decrypted: the
/// encryption dictionary itself, and metadata where metadata is not
/// encrypted.
pub open spec fn kept_plain(o: Object, id: ObjectId, encrypt_id: ObjectId, metadata_encrypted: bool) -> bool {
    id == encrypt_id || (object_type_name(o) == Some(metadata_bytes()) && !metadata_encrypted)
}

/// The identifier of the encryption dictionary: the trailer's /Encrypt.
pub open spec fn encrypt_id(doc: Document) -> Option<ObjectId> {
    match entries_get(doc.trailer@, encrypt_bytes()) {
        Some(Object::Reference(id)) => Some(id),
        _ => None,
    }
}

/// Whether metadata is encrypted: /EncryptMetadata of the encryption
/// dictionary, true where it is missing or no boolean.
pub open spec fn metadata_encrypted(d: Dictionary) -> bool {
    match entries_get(d@, encrypt_metadata_bytes()) {
        Some(Object::Boolean(b)) => b,
        _ => true,
    }
}

impl Document {
    /// Replaces all encrypted strings and streams with their decrypted
    /// contents, except in the encryption dictionary and, where metadata is
    /// not encrypted, in metadata; then drops /Encrypt from the trailer and
    /// keeps the state of the security handler.
    pub fn decrypt(&mut self, password: &[u8]) -> (r: Result<(), Error>)
        ensures
            r is Err ==> *final(self) == *old(self),
            r is Ok ==> {
                &&& encrypt_id(*old(self)) matches Some(eid)
                &&& object_of(old(self).objects@, eid) matches Ok(Object::Dictionary(d))
                &&& final(self).encryption_state matches Some(state)
                &&& final(self).objects@.dom() == old(self).objects@.dom()
                &&& forall|k: ObjectId| #[trigger] old(self).objects@.contains_key(k) ==> final(self).objects@[k]@ == if kept_plain(
                    old(self).objects@[k], k, eid, metadata_encrypted(d)) {
                    old(self).objects@[k]@
                } else {
                    crypted(state, k, old(self).objects@[k]@)
                }
                &&& final(self).trailer@ == crate::object::entries_remove(old(self).trailer@, encrypt_bytes())
            },
            encrypt_id(*old(self)) is None ==> r is Err,
            r is Ok <==> (encrypt_id(*old(self)) matches Some(eid)
                && object_of(old(self).objects@, eid) matches Ok(Object::Dictionary(_))
                && decode_succeeds(*old(self), password@)),
    {
        let eid = match self.trailer.get(encrypt_key().as_slice()) {
            Ok(o) => o.as_reference()?,
            Err(e) => {
                return Err(e);
            },
        };
        let metadata_is_encrypted = match self.get_object(eid) {
            Ok(o) => match o.as_dict() {
                Ok(d) => match d.get(encrypt_metadata_key().as_slice()) {
                    Ok(Object::Boolean(b)) => *b,
                    _ => true,
                },
                Err(e) => {
                    return Err(e);
                },
            },
            Err(e) => {
                return Err(e);
            },
        };
        let state = EncryptionState::decode(self, password)?;
        let ids = self.object_ids();
        let ghost orig = self.objects@;
        let mut i: usize = 0;
        while i < ids.len()
            invariant
                i <= ids@.len(),
                ids@.to_set() == orig.dom(),
                ids@.no_duplicates(),
                self.objects@.dom() == orig.dom(),
                self.trailer == old(self).trailer,
                orig == old(self).objects@,
                forall|j: int| 0 <= j < i ==> #[trigger] self.objects@[ids@[j]]@ == if kept_plain(orig[ids@[j]], ids@[j], eid,
                    metadata_is_encrypted) {
                    orig[ids@[j]]@
                } else {
                    crypted(state, ids@[j], orig[ids@[j]]@)
                },
                forall|k: ObjectId| orig.contains_key(k) && !ids@.subrange(0, i as int).contains(k) ==> #[trigger] self.objects@[k] == orig[k],
            decreases ids@.len() - i,
        {
            let id = ids[i];
            let skip = match self.objects.get(&id) {
                Some(obj) => {
                    let is_metadata = match type_name_of(obj) {
                        Some(t) => crate::object::bytes_equal(t, crate::names::metadata_key().as_slice()),
                        None => false,
                    };
                    (id.0 == eid.0 && id.1 == eid.1) || (is_metadata && !metadata_is_encrypted)
                },
                None => true,
            };
            let ghost before = self.objects@;
            assert(!ids@.subrange(0, i as int).contains(id)) by {
                if ids@.subrange(0, i as int).contains(id) {
                    let j = choose|j: int| 0 <= j < i && ids@.subrange(0, i as int)[j] == id;
                    assert(ids@[j] == ids@[i as int]);
                }
            }
            if !skip {
                let c = match self.objects.get(&id) {
                    Some(obj) => crypt_copy(&state, id, obj, false),
                    None => {
                        return Err(Error::ObjectNotFound);
                    },
                };
                match c {
                    Ok(c) => {
                        self.objects.insert(id, c);
                    },
                    Err(e) => {
                        return Err(Error::Decryption(e));
                    },
                }
            }
            proof {
                assert forall|k: ObjectId| orig.contains_key(k) && !ids@.subrange(0, i + 1).contains(k)
                    implies #[trigger] self.objects@[k] == orig[k] by {
                    assert(k != id) by {
                        if k == id {
                            assert(ids@.subrange(0, i + 1)[i as int] == k);
                        }
                    }
                    if ids@.subrange(0, i as int).contains(k) {
                        let j = choose|j: int| 0 <= j < i && ids@.subrange(0, i as int)[j] == k;
                        assert(ids@.subrange(0, i + 1)[j] == k);
                    }
                }
                assert forall|j: int| 0 <= j < i implies ids@[j] != id by {
                    assert(ids@[j] != ids@[i as int]);
                }
            }
            i = i + 1;
        }
        proof {
            assert forall|k: ObjectId| #[trigger] orig.contains_key(k) implies self.objects@[k]@ == if kept_plain(
                orig[k], k, eid, metadata_is_encrypted) {
                orig[k]@
            } else {
                crypted(state, k, orig[k]@)
            } by {
                assert(ids@.to_set().contains(k));
                let j = choose|j: int| 0 <= j < ids@.len() && ids@[j] == k;
                assert(self.objects@[ids@[j]]@ == if kept_plain(orig[ids@[j]], ids@[j], eid, metadata_is_encrypted) {
                    orig[ids@[j]]@
                } else {
                    crypted(state, ids@[j], orig[ids@[j]]@)
                });
            }
        }
        self.trailer.remove(encrypt_key().as_slice());
        self.encryption_state = Some(state);
        Ok(())
    }
}

} // verus!
