use lopdf::content::{Content, Operation};
use lopdf::document::Document;
use lopdf::encodings::{CodedCharacterSet, Encoding};
use lopdf::error::Error;
use lopdf::object::{Dictionary, Object, StringFormat};
use lopdf::text::{replace_text_in_content, text_chunks, try_to_replace_encoded_text};

fn ascii_table() -> CodedCharacterSet {
    let mut table: CodedCharacterSet = [None; 256];
    for (i, slot) in table.iter_mut().enumerate().take(128) {
        *slot = Some(i as u16);
    }
    table
}

fn string(s: &[u8]) -> Object {
    Object::String(s.to_vec(), StringFormat::Literal)
}

fn name(n: &[u8]) -> Object {
    Object::Name(n.to_vec())
}

fn texts(chunks: &[Result<String, Error>]) -> Vec<String> {
    chunks.iter().map(|c| c.as_ref().unwrap().clone()).collect()
}

#[test]
fn text_chunks_split_at_each_font() {
    let table = ascii_table();
    let encodings = vec![
        (b"F1".to_vec(), Encoding::OneByteEncoding(&table)),
        (b"F2".to_vec(), Encoding::OneByteEncoding(&table)),
    ];
    let content = Content {
        operations: vec![
            Operation::new("BT", vec![]),
            Operation::new("Tf", vec![name(b"F1"), Object::Integer(12)]),
            Operation::new("Tj", vec![string(b"Hello")]),
            Operation::new("ET", vec![]),
            Operation::new("Tf", vec![name(b"F2"), Object::Integer(12)]),
            Operation::new("TJ", vec![Object::Array(vec![string(b"A"), Object::Integer(-200), string(b"B")])]),
        ],
    };
    let chunks = text_chunks(&content, &encodings, Vec::new()).unwrap();
    assert_eq!(texts(&chunks), vec!["Hello\n".to_string(), "A B ".to_string()]);
}

#[test]
fn text_in_an_unknown_font_is_skipped() {
    let table = ascii_table();
    let encodings = vec![(b"F1".to_vec(), Encoding::OneByteEncoding(&table))];
    let content = Content {
        operations: vec![
            Operation::new("Tf", vec![name(b"F9"), Object::Integer(12)]),
            Operation::new("Tj", vec![string(b"lost")]),
            Operation::new("Tf", vec![name(b"F1"), Object::Integer(12)]),
            Operation::new("Tj", vec![string(b"kept")]),
        ],
    };
    let chunks = text_chunks(&content, &encodings, Vec::new()).unwrap();
    assert_eq!(texts(&chunks), vec!["kept".to_string()]);
}

#[test]
fn a_font_operand_that_is_no_name_is_a_chunk_of_its_own() {
    let table = ascii_table();
    let encodings = vec![(b"F1".to_vec(), Encoding::OneByteEncoding(&table))];
    let content = Content {
        operations: vec![
            Operation::new("Tf", vec![name(b"F1")]),
            Operation::new("Tj", vec![string(b"one")]),
            Operation::new("Tf", vec![Object::Integer(3)]),
            Operation::new("Tj", vec![string(b"two")]),
        ],
    };
    let chunks = text_chunks(&content, &encodings, Vec::new()).unwrap();
    assert_eq!(chunks.len(), 2);
    assert!(matches!(chunks[0], Err(Error::ObjectType { expected: "Name", .. })));
    assert_eq!(chunks[1].as_ref().unwrap(), "one");
}

#[test]
fn a_font_selection_without_operand_is_an_error() {
    let encodings: Vec<(Vec<u8>, Encoding)> = Vec::new();
    let content = Content { operations: vec![Operation::new("Tf", vec![])] };
    match text_chunks(&content, &encodings, Vec::new()) {
        Err(Error::Syntax(s)) => assert_eq!(s, "missing font operand"),
        other => panic!("unexpected {:?}", other.map(|v| v.len())),
    }
}

#[test]
fn a_string_in_an_unknown_named_encoding_gives_an_error_chunk() {
    let encodings = vec![(b"F1".to_vec(), Encoding::SimpleEncoding(b"Unknown-H"))];
    let content = Content {
        operations: vec![
            Operation::new("Tf", vec![name(b"F1"), Object::Integer(12)]),
            Operation::new("Tj", vec![string(b"x")]),
        ],
    };
    let chunks = text_chunks(&content, &encodings, Vec::new()).unwrap();
    assert_eq!(chunks.len(), 1);
    assert!(matches!(chunks[0], Err(Error::CharacterEncoding)));
}

#[test]
fn decode_text_follows_the_encoding() {
    let table = ascii_table();
    assert_eq!(Document::decode_text(&Encoding::OneByteEncoding(&table), b"abc").unwrap(), "abc");
    assert_eq!(
        Document::decode_text(&Encoding::SimpleEncoding(b"UniGB-UCS2-H"), &[0x00, 0x41, 0x00, 0x42]).unwrap(),
        "AB"
    );
    assert!(matches!(
        Document::decode_text(&Encoding::SimpleEncoding(b"Other"), b"abc"),
        Err(Error::CharacterEncoding)
    ));
}

#[test]
fn replacing_text_replaces_matching_strings_only() {
    let table = ascii_table();
    let encoding = Encoding::OneByteEncoding(&table);
    let mut op = Operation::new("Tj", vec![string(b"Hello"), string(b"Other"), Object::Integer(1)]);
    try_to_replace_encoded_text(&mut op, &encoding, "Hello", "World").unwrap();
    assert_eq!(op.operands[0].as_str().unwrap(), b"World");
    assert_eq!(op.operands[1].as_str().unwrap(), b"Other");
    assert_eq!(op.operands[2].as_i64().unwrap(), 1);
}

#[test]
fn replacing_text_in_content_uses_the_font_in_use() {
    let table = ascii_table();
    let encodings = vec![(b"F1".to_vec(), Encoding::OneByteEncoding(&table))];
    let mut content = Content {
        operations: vec![
            Operation::new("Tj", vec![string(b"Hello World!")]),
            Operation::new("Tf", vec![name(b"F1"), Object::Integer(12)]),
            Operation::new("Tj", vec![string(b"Hello World!")]),
        ],
    };
    replace_text_in_content(&mut content, &encodings, "Hello World!", "Modified text!").unwrap();
    assert_eq!(content.operations[0].operands[0].as_str().unwrap(), b"Hello World!");
    assert_eq!(content.operations[2].operands[0].as_str().unwrap(), b"Modified text!");
}

#[test]
fn page_fonts_come_from_the_page_and_its_parents() {
    let mut doc = Document::with_version("1.7");
    let mut f1 = Dictionary::new();
    f1.set(b"Type".to_vec(), name(b"Font"));
    f1.set(b"BaseFont".to_vec(), name(b"Helvetica"));
    let courier = || {
        let mut f = Dictionary::new();
        f.set(b"Type".to_vec(), name(b"Font"));
        f.set(b"BaseFont".to_vec(), name(b"Courier"));
        f
    };
    doc.objects.insert((5, 0), Object::Dictionary(f1));
    doc.objects.insert((6, 0), Object::Dictionary(courier()));
    let mut own_fonts = Dictionary::new();
    own_fonts.set(b"F1".to_vec(), Object::Reference((5, 0)));
    let mut own_resources = Dictionary::new();
    own_resources.set(b"Font".to_vec(), Object::Dictionary(own_fonts));
    let mut parent_fonts = Dictionary::new();
    parent_fonts.set(b"F1".to_vec(), Object::Reference((6, 0)));
    parent_fonts.set(b"F2".to_vec(), Object::Dictionary(courier()));
    let mut parent_resources = Dictionary::new();
    parent_resources.set(b"Font".to_vec(), Object::Dictionary(parent_fonts));
    doc.objects.insert((4, 0), Object::Dictionary(parent_resources));
    let mut parent = Dictionary::new();
    parent.set(b"Type".to_vec(), name(b"Pages"));
    parent.set(b"Resources".to_vec(), Object::Reference((4, 0)));
    doc.objects.insert((2, 0), Object::Dictionary(parent));
    let mut page = Dictionary::new();
    page.set(b"Type".to_vec(), name(b"Page"));
    page.set(b"Parent".to_vec(), Object::Reference((2, 0)));
    page.set(b"Resources".to_vec(), Object::Dictionary(own_resources));
    doc.objects.insert((3, 0), Object::Dictionary(page));

    let fonts = doc.get_page_fonts((3, 0));
    assert_eq!(fonts.len(), 2);
    assert_eq!(fonts[0].0, b"F1".to_vec());
    assert_eq!(fonts[0].1.get(b"BaseFont").unwrap().as_name().unwrap(), b"Helvetica");
    assert_eq!(fonts[1].0, b"F2".to_vec());
    assert_eq!(fonts[1].1.get(b"BaseFont").unwrap().as_name().unwrap(), b"Courier");
}
