use lopdf::strings::text_string;
use lopdf::content::{Content, Operation};
use lopdf::document::Document;
use lopdf::filters::png::{decode_frame, decode_row, encode_row, FilterType, PngError};
use lopdf::object::{Dictionary, Object, Stream, StringFormat};
use lopdf::parser::direct_object;
use lopdf::writer::Writer;
use lopdf::xref::{Xref, XrefEntry, XrefSection, XrefType};
use lopdf::xref_stream::decode_xref_entries;
use lopdf::error::{Error, ParseError};

fn written(object: &Object) -> Vec<u8> {
    let mut out = Vec::new();
    Writer::write_object(&mut out, object);
    out
}

#[test]
fn writer_writes_each_kind() {
    assert_eq!(written(&Object::Null), b"null");
    assert_eq!(written(&Object::Boolean(false)), b"false");
    assert_eq!(written(&Object::Integer(-42)), b"-42");
    assert_eq!(written(&Object::Real(b"3.25".to_vec())), b"3.25");
    assert_eq!(written(&Object::Name(b"A B#".to_vec())), b"/A#20B#23");
    assert_eq!(written(&Object::String(b"a(b)\\".to_vec(), StringFormat::Literal)), b"(a(b)\\\\)");
    assert_eq!(written(&Object::String(b"x)\r".to_vec(), StringFormat::Literal)), b"(x\\)\\r)");
    assert_eq!(written(&Object::String(vec![0x90, 0x1F], StringFormat::Hexadecimal)), b"<901F>");
    assert_eq!(written(&Object::Reference((12, 3))), b"12 3 R");
    assert_eq!(
        written(&Object::Array(vec![Object::Integer(1), Object::Name(b"X".to_vec()), Object::Integer(2)])),
        b"[1/X 2]"
    );
}

#[test]
fn written_objects_read_back() {
    let mut dict = Dictionary::new();
    dict.set(b"Type".to_vec(), Object::Name(b"Page".to_vec()));
    dict.set(b"Count".to_vec(), Object::Integer(7));
    dict.set(
        b"Kids".to_vec(),
        Object::Array(vec![Object::Reference((4, 0)), Object::String(b"x y".to_vec(), StringFormat::Literal)]),
    );
    let text = written(&Object::Dictionary(dict));
    match direct_object(&text) {
        Some(Object::Dictionary(d)) => {
            assert_eq!(d.len(), 3);
            assert!(matches!(d.get(b"Type"), Ok(Object::Name(n)) if n == b"Page"));
            assert!(matches!(d.get(b"Count"), Ok(Object::Integer(7))));
            match d.get(b"Kids") {
                Ok(Object::Array(items)) => {
                    assert!(matches!(&items[0], Object::Reference((4, 0))));
                    assert!(matches!(&items[1], Object::String(s, _) if s == b"x y"));
                }
                other => panic!("unexpected {:?}", other),
            }
        }
        other => panic!("unexpected {:?} from {:?}", other, String::from_utf8_lossy(&text)),
    }
}

#[test]
fn stream_is_written_with_its_length() {
    let mut out = Vec::new();
    let stream = Stream::new(Dictionary::new(), b"BT ET".to_vec());
    Writer::write_stream(&mut out, &stream);
    assert_eq!(out, b"<</Length 5>>stream\nBT ETendstream");
}

#[test]
fn dictionary_set_replaces_and_keeps_order() {
    let mut d = Dictionary::new();
    d.set(b"A".to_vec(), Object::Integer(1));
    d.set(b"B".to_vec(), Object::Integer(2));
    d.set(b"A".to_vec(), Object::Integer(3));
    assert_eq!(d.len(), 2);
    assert!(matches!(d.get(b"A"), Ok(Object::Integer(3))));
    assert!(matches!(d.remove(b"B"), Some(Object::Integer(2))));
    assert!(!d.has(b"B"));
    assert!(matches!(d.get(b"B"), Err(Error::DictKey(_))));
    assert!(matches!(d.get_type(), Err(_)));
}

#[test]
fn content_encodes_and_decodes() {
    let content = Content {
        operations: vec![
            Operation::new("BT", vec![]),
            Operation::new("Tf", vec![Object::Name(b"F1".to_vec()), Object::Integer(12)]),
            Operation::new("Tj", vec![Object::String(b"Hi".to_vec(), StringFormat::Literal)]),
            Operation::new("ET", vec![]),
        ],
    };
    let bytes = content.encode().unwrap();
    assert_eq!(bytes, b"BT\n/F1 12 Tf\n(Hi) Tj\nET\n");
    let back = Content::decode(&bytes).unwrap();
    assert_eq!(back.operations.len(), 4);
    assert_eq!(back.operations[1].operator, "Tf");
    assert!(matches!(&back.operations[1].operands[0], Object::Name(n) if n == b"F1"));
}

#[test]
fn png_rows_decode_what_was_encoded() {
    let previous = [10u8, 20, 30, 40, 50, 60];
    let row = [12u8, 200, 31, 0, 255, 7];
    for method in [FilterType::NoFilter, FilterType::Sub, FilterType::Up, FilterType::Avg, FilterType::Paeth] {
        let mut current = row;
        encode_row(method, 3, &previous, &mut current);
        decode_row(method, 3, &previous, &mut current);
        assert_eq!(current, row, "{:?}", method);
    }
    assert_eq!(FilterType::from_u8(4), Some(FilterType::Paeth));
    assert_eq!(FilterType::from_u8(5), None);
}

#[test]
fn png_frame_decodes_rows() {
    // Two rows of two one-byte pixels: the first with Sub, the second with Up.
    let frame = [1u8, 5, 3, 2, 1, 1];
    assert_eq!(decode_frame(&frame, 1, 2).unwrap(), vec![5, 8, 6, 9]);
    assert!(matches!(decode_frame(&[7u8, 0, 0], 1, 2), Err(PngError::InvalidFilterType(7))));
}

#[test]
fn xref_insert_get_and_merge() {
    let mut xref = Xref::new(5, XrefType::CrossReferenceTable);
    xref.insert(1, XrefEntry::Normal { offset: 15, generation: 0 });
    xref.insert(2, XrefEntry::Compressed { container: 9, index: 0 });
    assert_eq!(xref.get(1), Some(&XrefEntry::Normal { offset: 15, generation: 0 }));
    assert_eq!(xref.max_id(), 2);

    let mut other = Xref::new(9, XrefType::CrossReferenceStream);
    other.insert(1, XrefEntry::Free);
    other.insert(3, XrefEntry::Normal { offset: 99, generation: 1 });
    xref.merge(other);
    assert_eq!(xref.get(1), Some(&XrefEntry::Normal { offset: 15, generation: 0 }));
    assert_eq!(xref.get(3), Some(&XrefEntry::Normal { offset: 99, generation: 1 }));
    assert_eq!(xref.size, 5);
}

#[test]
fn xref_section_is_written_as_table_lines() {
    let mut section = XrefSection::new(0);
    section.add_unusable_free_entry();
    section.add_entry(XrefEntry::Normal { offset: 17, generation: 0 });
    let mut out = Vec::new();
    section.write_xref_section(&mut out);
    assert_eq!(out, b"0 2\n0000000000 65535 f \n0000000017 00000 n \n");
}

fn xref_stream_dict(size: i64, widths: [i64; 3], index: Option<Vec<i64>>) -> Dictionary {
    let mut dict = Dictionary::new();
    dict.set(b"Type".to_vec(), Object::Name(b"XRef".to_vec()));
    dict.set(b"Size".to_vec(), Object::Integer(size));
    dict.set(b"W".to_vec(), Object::Array(widths.iter().map(|w| Object::Integer(*w)).collect()));
    if let Some(index) = index {
        dict.set(b"Index".to_vec(), Object::Array(index.into_iter().map(Object::Integer).collect()));
    }
    dict
}

#[test]
fn xref_stream_entries_are_read() {
    // Three records of widths 1, 2, 1: free, in use at 0x0110, in stream 7.
    let data = [0u8, 0, 0, 255, 1, 1, 16, 0, 2, 0, 7, 3];
    let (xref, _) = decode_xref_entries(xref_stream_dict(3, [1, 2, 1], None), &data).unwrap();
    assert_eq!(xref.get(1), Some(&XrefEntry::Normal { offset: 0x0110, generation: 0 }));
    assert_eq!(xref.get(2), Some(&XrefEntry::Compressed { container: 7, index: 3 }));
    assert_eq!(xref.size, 3);
}

#[test]
fn xref_stream_with_zero_width_is_refused() {
    let r = decode_xref_entries(xref_stream_dict(1, [0, 0, 0], None), &[1, 2, 3]);
    assert!(matches!(r, Err(Error::Parse(ParseError::InvalidXref)) | Err(Error::Xref(_))));
}

#[test]
fn xref_stream_index_past_the_data_is_refused() {
    let r = decode_xref_entries(xref_stream_dict(10, [1, 2, 1], Some(vec![0, 10])), &[0u8; 8]);
    assert!(matches!(r, Err(Error::Parse(ParseError::InvalidXref)) | Err(Error::Xref(_))));
    let r = decode_xref_entries(xref_stream_dict(10, [1, 2, 1], Some(vec![0, -1])), &[0u8; 8]);
    assert!(r.is_err());
}

#[test]
fn document_objects_and_references() {
    let mut doc = Document::with_version("1.7");
    let a = doc.add_object(Object::Integer(5));
    let b = doc.add_object(Object::Reference(a));
    assert_eq!(a, (1, 0));
    assert_eq!(b, (2, 0));
    assert_eq!(doc.max_id, 2);
    assert!(doc.has_object(a));
    assert_eq!(doc.object_ids(), vec![(1, 0), (2, 0)]);
    let start = Object::Reference(b);
    match doc.dereference(&start) {
        Ok((Some(id), Object::Integer(5))) => assert_eq!(id, a),
        other => panic!("unexpected {:?}", other),
    }
    assert!(matches!(doc.get_object((9, 0)), Err(Error::ObjectNotFound)));
    assert!(matches!(doc.get_dictionary(a), Err(Error::ObjectType { .. })));
}

#[test]
fn reference_cycle_hits_the_limit() {
    let mut doc = Document::with_version("1.7");
    doc.objects.insert((1, 0), Object::Reference((2, 0)));
    doc.objects.insert((2, 0), Object::Reference((1, 0)));
    let start = Object::Reference((1, 0));
    assert!(matches!(doc.dereference(&start), Err(Error::ReferenceLimit)));
}

#[test]
fn dictionary_extend_merges_entries() {
    let mut inner_a = Dictionary::new();
    inner_a.set(b"E".to_vec(), Object::Integer(1));
    let mut a = Dictionary::new();
    a.set(b"A".to_vec(), Object::Integer(1));
    a.set(b"B".to_vec(), Object::Name(b"X".to_vec()));
    a.set(b"C".to_vec(), Object::Array(vec![Object::Integer(1)]));
    a.set(b"D".to_vec(), Object::Dictionary(inner_a));
    a.set(b"H".to_vec(), Object::Integer(7));
    let mut inner_b = Dictionary::new();
    inner_b.set(b"E".to_vec(), Object::Integer(2));
    inner_b.set(b"F".to_vec(), Object::Integer(3));
    let mut b = Dictionary::new();
    b.set(b"A".to_vec(), Object::Integer(2));
    b.set(b"B".to_vec(), Object::Name(b"Y".to_vec()));
    b.set(b"C".to_vec(), Object::Array(vec![Object::Integer(2)]));
    b.set(b"D".to_vec(), Object::Dictionary(inner_b));
    b.set(b"G".to_vec(), Object::String(b"s".to_vec(), StringFormat::Literal));
    b.set(b"H".to_vec(), Object::Boolean(true));
    a.extend(&b);
    assert_eq!(a.len(), 6);
    assert!(matches!(a.get(b"A"), Ok(Object::Array(v)) if matches!(v.as_slice(), [Object::Integer(1), Object::Integer(2)])));
    assert!(matches!(a.get(b"B"), Ok(Object::Name(n)) if n == b"X"));
    assert!(matches!(a.get(b"C"), Ok(Object::Array(v)) if matches!(v.as_slice(), [Object::Integer(1), Object::Integer(2)])));
    match a.get(b"D") {
        Ok(Object::Dictionary(d)) => {
            assert!(matches!(d.get(b"E"), Ok(Object::Array(v)) if v.len() == 2));
            assert!(matches!(d.get(b"F"), Ok(Object::Integer(3))));
        }
        other => panic!("unexpected {:?}", other),
    }
    assert!(matches!(a.get(b"G"), Ok(Object::String(s, _)) if s == b"s"));
    assert!(matches!(a.get(b"H"), Ok(Object::Array(v)) if matches!(v.as_slice(), [Object::Boolean(true), Object::Integer(7)])));
}

#[test]
fn text_strings_pick_their_encoding() {
    assert!(matches!(text_string("abc"), Object::String(s, StringFormat::Literal) if s == b"abc"));
    assert!(matches!(text_string("é"), Object::String(s, StringFormat::Hexadecimal) if s == vec![0xFE, 0xFF, 0x00, 0xE9]));
}

#[test]
fn objects_convert_from_their_parts() {
    assert!(matches!(Object::from(true), Object::Boolean(true)));
    assert!(matches!(Object::from(7i64), Object::Integer(7)));
    assert!(matches!(Object::from((3u32, 1u16)), Object::Reference((3, 1))));
    assert!(matches!(Object::from(vec![Object::Null]), Object::Array(v) if v.len() == 1));
    assert!(matches!(Object::from(Dictionary::new()), Object::Dictionary(d) if d.is_empty()));
}

#[test]
fn from_pairs_keeps_one_entry_per_key() {
    let d = Dictionary::from_pairs(vec![
        (b"A".to_vec(), Object::Integer(1)),
        (b"B".to_vec(), Object::Integer(2)),
        (b"A".to_vec(), Object::Integer(3)),
    ]);
    assert_eq!(d.len(), 2);
    assert_eq!(d.get(b"A").unwrap().as_i64().unwrap(), 3);
    assert_eq!(d.get(b"B").unwrap().as_i64().unwrap(), 2);
    assert_eq!(d.entries()[0].0, b"A".to_vec());
    assert_eq!(d.entries()[1].0, b"B".to_vec());
}
