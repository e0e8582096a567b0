use lopdf::document::Document;
use lopdf::encryption::algorithms::PasswordAlgorithm;
use lopdf::encryption::rc4::Rc4;
use lopdf::encryption::{
    DecryptionError, decrypt_object, encrypt_object, CryptFilter, EncryptionState, Permissions, COPYABLE, MODIFIABLE, PRINTABLE,
};
use lopdf::error::Error;
use lopdf::object::{Dictionary, Object, StringFormat};

#[test]
fn rc4_works() {
    let cases = [
        (String::from("Key"), String::from("Plaintext"), String::from("BBF316E8D940AF0AD3")),
        (String::from("Wiki"), String::from("pedia"), String::from("1021BF0420")),
    ];

    for (key, plain, cipher) in cases {
        let cipher = cipher.as_bytes();
        let mut cipher_bytes = Vec::with_capacity(cipher.len() / 2);
        for hex_pair in cipher.chunks_exact(2) {
            cipher_bytes.push(u8::from_str_radix(std::str::from_utf8(hex_pair).unwrap(), 16).unwrap());
        }

        let decryptor = Rc4::new(key.as_bytes());
        let decrypted = decryptor.decrypt(&cipher_bytes);
        assert_eq!(plain.as_bytes(), &decrypted[..]);
    }
}

#[test]
fn rc4_twice_gives_back_the_input() {
    let rc4 = Rc4::new(b"Secret");
    let data = b"Attack at dawn".to_vec();
    let once = rc4.encrypt(&data);
    assert_ne!(once, data);
    assert_eq!(rc4.decrypt(&once), data);
}

#[test]
fn permissions_round_trip_through_p_value() {
    let p = Permissions::from_bits_truncate(0xFFFF_FFFC);
    assert!(p.contains(PRINTABLE | MODIFIABLE));
    assert_eq!(p.p_value() & 0x1E78, p.get_bits());
    let q = Permissions::from_bits_truncate(PRINTABLE | COPYABLE | 1);
    assert_eq!(q.get_bits(), PRINTABLE | COPYABLE);
    assert!(!q.contains(MODIFIABLE));
    assert_eq!(Permissions::from_bits_truncate(q.p_value()).get_bits(), q.get_bits());
}

fn rc4_state(key: &[u8]) -> EncryptionState {
    EncryptionState {
        crypt_filters: vec![(b"StdCF".to_vec(), CryptFilter::Rc4)],
        file_encryption_key: key.to_vec(),
        stream_filter: b"StdCF".to_vec(),
        string_filter: b"StdCF".to_vec(),
        owner_value: Vec::new(),
        owner_encrypted: Vec::new(),
        user_value: Vec::new(),
        user_encrypted: Vec::new(),
        permissions: Permissions::from_bits_truncate(0),
    }
}

#[test]
fn object_decrypts_to_what_was_encrypted() {
    let state = rc4_state(b"\x01\x02\x03\x04\x05");
    let mut dict = Dictionary::new();
    dict.set(b"Title".to_vec(), Object::String(b"Quarterly report".to_vec(), StringFormat::Literal));
    dict.set(b"Count".to_vec(), Object::Integer(3));
    let mut obj = Object::Array(vec![
        Object::String(b"hello".to_vec(), StringFormat::Hexadecimal),
        Object::Dictionary(dict),
    ]);
    encrypt_object(&state, (7, 0), &mut obj).unwrap();
    match &obj {
        Object::Array(items) => {
            assert!(matches!(&items[0], Object::String(s, _) if s != b"hello"));
        }
        other => panic!("unexpected {:?}", other),
    }
    decrypt_object(&state, (7, 0), &mut obj).unwrap();
    match &obj {
        Object::Array(items) => {
            assert!(matches!(&items[0], Object::String(s, StringFormat::Hexadecimal) if s == b"hello"));
            match &items[1] {
                Object::Dictionary(d) => {
                    assert!(matches!(d.get(b"Title"), Ok(Object::String(s, _)) if s == b"Quarterly report"));
                    assert!(matches!(d.get(b"Count"), Ok(Object::Integer(3))));
                }
                other => panic!("unexpected {:?}", other),
            }
        }
        other => panic!("unexpected {:?}", other),
    }
}

#[test]
fn object_key_depends_on_the_object() {
    let key = b"\x01\x02\x03\x04\x05";
    let a = CryptFilter::Rc4.compute_key(key, (1, 0)).unwrap();
    let b = CryptFilter::Rc4.compute_key(key, (2, 0)).unwrap();
    assert_eq!(a.len(), 10);
    assert_ne!(a, b);
    assert_eq!(CryptFilter::Identity.compute_key(key, (1, 0)).unwrap(), key.to_vec());
}

fn encrypted_document(user: &[u8], owner: &[u8], plain: &[u8]) -> Document {
    let algorithm = PasswordAlgorithm { length: Some(128), revision: 3 };
    let owner_entry = algorithm.compute_hashed_owner_password(Some(owner), user).unwrap();

    let mut doc = Document::with_version("1.5");
    let mut encrypt = Dictionary::new();
    encrypt.set(b"Filter".to_vec(), Object::Name(b"Standard".to_vec()));
    encrypt.set(b"V".to_vec(), Object::Integer(2));
    encrypt.set(b"R".to_vec(), Object::Integer(3));
    encrypt.set(b"Length".to_vec(), Object::Integer(128));
    encrypt.set(b"P".to_vec(), Object::Integer(-4));
    encrypt.set(b"O".to_vec(), Object::String(owner_entry, StringFormat::Literal));
    let encrypt_id = doc.add_object(Object::Dictionary(encrypt));
    doc.trailer.set(b"Encrypt".to_vec(), Object::Reference(encrypt_id));
    doc.trailer.set(
        b"ID".to_vec(),
        Object::Array(vec![
            Object::String(b"0123456789abcdef".to_vec(), StringFormat::Hexadecimal),
            Object::String(b"0123456789abcdef".to_vec(), StringFormat::Hexadecimal),
        ]),
    );
    let user_entry = algorithm.compute_hashed_user_password(&doc, user).unwrap();
    if let Some(Object::Dictionary(d)) = doc.objects.get_mut(&encrypt_id) {
        d.set(b"U".to_vec(), Object::String(user_entry, StringFormat::Literal));
    }
    assert!(algorithm.authenticate_user_password(&doc, user).is_ok());
    assert!(algorithm.authenticate_owner_password(&doc, owner).is_ok());
    assert!(algorithm.authenticate_user_password(&doc, b"wrong").is_err());

    let file_key = algorithm.compute_file_encryption_key(&doc, user).unwrap();
    let id = doc.new_object_id();
    let object_key = CryptFilter::Rc4.compute_key(&file_key, id).unwrap();
    let cipher = Rc4::new(&object_key).encrypt(plain);
    doc.objects.insert(id, Object::String(cipher, StringFormat::Literal));
    doc
}

#[test]
fn decrypt_recovers_strings_with_the_user_password() {
    let mut doc = encrypted_document(b"12345", b"abcde", b"Top secret");
    assert!(doc.is_encrypted());
    doc.decrypt(b"12345").unwrap();
    assert!(!doc.is_encrypted());
    assert!(doc.encryption_state.is_some());
    assert!(matches!(doc.get_object((2, 0)), Ok(Object::String(s, _)) if s == b"Top secret"));
}

#[test]
fn decrypt_of_a_plain_document_is_refused() {
    let mut doc = Document::with_version("1.7");
    assert!(matches!(doc.decrypt(b""), Err(Error::DictKey(_))));
}

#[test]
fn decrypt_with_another_security_handler_is_refused() {
    let mut doc = Document::with_version("1.7");
    let mut encrypt = Dictionary::new();
    encrypt.set(b"Filter".to_vec(), Object::Name(b"Adobe.PubSec".to_vec()));
    let id = doc.add_object(Object::Dictionary(encrypt));
    doc.trailer.set(b"Encrypt".to_vec(), Object::Reference(id));
    match doc.decrypt(b"") {
        Err(Error::UnsupportedSecurityHandler(h)) => assert_eq!(h, b"Adobe.PubSec"),
        other => panic!("unexpected {:?}", other),
    }
    assert!(doc.is_encrypted());
}

fn without_entry(mut doc: Document, key: &[u8]) -> Document {
    if let Some(Object::Dictionary(d)) = doc.objects.get_mut(&(1, 0)) {
        d.remove(key);
    }
    doc
}

#[test]
fn decode_names_what_the_encryption_dictionary_lacks() {
    let doc = without_entry(encrypted_document(b"12345", b"abcde", b"x"), b"Filter");
    match EncryptionState::decode(&doc, b"12345") {
        Err(Error::DictKey(k)) => assert_eq!(k, "Filter"),
        other => panic!("unexpected {:?}", other.is_ok()),
    }
    let doc = without_entry(encrypted_document(b"12345", b"abcde", b"x"), b"U");
    assert!(matches!(
        EncryptionState::decode(&doc, b"12345"),
        Err(Error::Decryption(DecryptionError::MissingUserPassword))
    ));
    let doc = without_entry(encrypted_document(b"12345", b"abcde", b"x"), b"P");
    assert!(matches!(
        EncryptionState::decode(&doc, b"12345"),
        Err(Error::Decryption(DecryptionError::MissingPermissions))
    ));
    let doc = without_entry(encrypted_document(b"12345", b"abcde", b"x"), b"O");
    assert!(matches!(
        EncryptionState::decode(&doc, b"12345"),
        Err(Error::Decryption(DecryptionError::MissingOwnerPassword))
    ));
    let state = EncryptionState::decode(&encrypted_document(b"12345", b"abcde", b"x"), b"12345").unwrap();
    assert_eq!(state.permissions, Permissions::from_bits_truncate((-4i64) as u64));
}

#[test]
fn loading_an_encrypted_file_with_an_empty_user_password_decrypts_it() {
    let mut doc = encrypted_document(b"", b"", b"Top secret");
    let mut catalog = Dictionary::new();
    catalog.set(b"Type".to_vec(), Object::Name(b"Catalog".to_vec()));
    let catalog_id = doc.add_object(Object::Dictionary(catalog));
    doc.trailer.set(b"Root".to_vec(), Object::Reference(catalog_id));
    let mut bytes = Vec::new();
    doc.save_to(&mut bytes);
    let loaded = Document::load_mem(&bytes).unwrap();
    assert!(loaded.encryption_state.is_some());
    assert!(loaded.is_encrypted());
    assert!(matches!(loaded.get_object((2, 0)), Ok(Object::String(s, _)) if s == b"Top secret"));
}

#[test]
fn owner_entry_pads_the_user_password_whatever_the_owner_length() {
    let algorithm = PasswordAlgorithm { length: Some(128), revision: 3 };
    let short_user = algorithm.compute_hashed_owner_password(Some(b"owner"), b"user").unwrap();
    assert_eq!(short_user.len(), 32);
    let long_owner = algorithm
        .compute_hashed_owner_password(Some(b"a rather long owner password of more than 32 bytes"), b"u")
        .unwrap();
    assert_eq!(long_owner.len(), 32);
    let no_owner = algorithm.compute_hashed_owner_password(None, b"user").unwrap();
    assert_eq!(no_owner.len(), 32);
    assert_ne!(short_user, no_owner);
}
