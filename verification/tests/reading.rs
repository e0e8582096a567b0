use lopdf::document::Document;
use lopdf::error::{Error, ParseError, XrefError};
use lopdf::object::{Dictionary, Object, Stream, StringFormat};
use lopdf::object_stream::ObjectStream;
use lopdf::reader::{search_substring, Reader};

fn sample_document() -> Document {
    let mut doc = Document::with_version("1.5");
    let mut page = Dictionary::new();
    page.set(b"Type".to_vec(), Object::Name(b"Page".to_vec()));
    page.set(b"Count".to_vec(), Object::Integer(3));
    let page_id = doc.add_object(Object::Dictionary(page));
    let text_id = doc.add_object(Object::String(b"hello (world)".to_vec(), StringFormat::Literal));
    let stream_id = doc.add_object(Object::Stream(Stream::new(Dictionary::new(), b"BT /F1 12 Tf ET".to_vec())));
    let mut catalog = Dictionary::new();
    catalog.set(b"Type".to_vec(), Object::Name(b"Catalog".to_vec()));
    catalog.set(b"Pages".to_vec(), Object::Reference(page_id));
    catalog.set(b"Extra".to_vec(), Object::Array(vec![Object::Reference(text_id), Object::Reference(stream_id)]));
    let catalog_id = doc.add_object(Object::Dictionary(catalog));
    doc.trailer.set(b"Root".to_vec(), Object::Reference(catalog_id));
    doc
}

#[test]
fn saved_document_loads_back() {
    let mut doc = sample_document();
    let mut bytes = Vec::new();
    doc.save_to(&mut bytes);
    let loaded = Document::load_mem(&bytes).expect("a saved document loads");
    assert_eq!(loaded.version, "1.5");
    assert_eq!(loaded.objects.len(), 4);
    assert_eq!(loaded.max_id, 4);
    assert!(matches!(loaded.trailer.get(b"Root"), Ok(Object::Reference((4, 0)))));
    assert!(matches!(loaded.trailer.get(b"Size"), Ok(Object::Integer(5))));
    match loaded.get_object((1, 0)) {
        Ok(Object::Dictionary(d)) => {
            assert!(matches!(d.get(b"Count"), Ok(Object::Integer(3))));
            assert!(matches!(d.get(b"Type"), Ok(Object::Name(n)) if n == b"Page"));
        }
        other => panic!("unexpected {:?}", other),
    }
    assert!(matches!(loaded.get_object((2, 0)), Ok(Object::String(s, _)) if s == b"hello (world)"));
    match loaded.get_object((3, 0)) {
        Ok(Object::Stream(st)) => assert_eq!(st.content, b"BT /F1 12 Tf ET"),
        other => panic!("unexpected {:?}", other),
    }
}

#[test]
fn loading_skips_bytes_before_the_header() {
    let mut doc = sample_document();
    let mut bytes = b"junk before".to_vec();
    doc.save_to(&mut bytes);
    let loaded = Document::load_mem(&bytes).expect("the header is found after the junk");
    assert_eq!(loaded.objects.len(), 4);
}

#[test]
fn missing_header_is_refused() {
    match Document::load_mem(b"%PDX-1.4\n1 0 obj\nnull\nendobj\n") {
        Err(Error::Parse(ParseError::InvalidFileHeader)) => {}
        other => panic!("unexpected {:?}", other.map(|d| d.version)),
    }
}

#[test]
fn missing_startxref_is_refused() {
    match Document::load_mem(b"%PDF-1.4\n1 0 obj\nnull\nendobj\n%%EOF") {
        Err(Error::Xref(XrefError::Start)) => {}
        other => panic!("unexpected {:?}", other.map(|d| d.version)),
    }
}

#[test]
fn search_finds_the_last_occurrence() {
    assert_eq!(search_substring(b"abcabcab", b"ab", 0), Some(6));
    assert_eq!(search_substring(b"abcabcab", b"ab", 7), None);
    assert_eq!(search_substring(b"abcabcab", b"zz", 0), None);
}

#[test]
fn xref_start_comes_from_the_end() {
    let file = b"%PDF-1.4\nxxxxxxxxxxxxxxxxxxxxxxxxxxxxxxxxxxxxx\nstartxref\n1234\n%%EOF\n";
    assert_eq!(Reader::get_xref_start(file).ok(), Some(1234));
    assert!(Reader::get_xref_start(b"%PDF-1.4\n%%EOF").is_err());
}

#[test]
fn object_stream_objects_are_read() {
    let mut dict = Dictionary::new();
    dict.set(b"Type".to_vec(), Object::Name(b"ObjStm".to_vec()));
    dict.set(b"N".to_vec(), Object::Integer(2));
    dict.set(b"First".to_vec(), Object::Integer(10));
    let mut stream = Stream::new(dict, b"10 0 11 5 (ab) 42".to_vec());
    let os = ObjectStream::new(&mut stream).expect("the stream is read");
    assert_eq!(os.objects.len(), 2);
    assert!(matches!(os.objects.get(&(10, 0)), Some(Object::String(s, _)) if s == b"ab"));
    assert!(matches!(os.objects.get(&(11, 0)), Some(Object::Integer(42))));
}

fn xref_stream_pdf(w: [i64; 3], count: i64, body: &[u8]) -> Vec<u8> {
    xref_stream_pdf_with_index(w, &format!("0 {count}"), body)
}

fn xref_stream_pdf_with_index(w: [i64; 3], index: &str, body: &[u8]) -> Vec<u8> {
    let mut pdf = Vec::new();
    pdf.extend_from_slice(b"%PDF-1.5\n");
    let obj_offset = pdf.len();
    pdf.extend_from_slice(b"1 0 obj\n");
    pdf.extend_from_slice(
        format!(
            "<< /Type /XRef /Size 4 /W [{} {} {}] /Index [{index}] /Root 1 0 R /Length {} >>\n",
            w[0],
            w[1],
            w[2],
            body.len()
        )
        .as_bytes(),
    );
    pdf.extend_from_slice(b"stream\n");
    pdf.extend_from_slice(body);
    pdf.extend_from_slice(b"\nendstream\nendobj\n");
    pdf.extend_from_slice(format!("startxref\n{obj_offset}\n%%EOF").as_bytes());
    pdf
}

#[test]
fn zero_width_xref_stream_is_rejected() {
    let pdf = xref_stream_pdf([0, 0, 0], 1_000_000, b"");
    match Document::load_mem(&pdf) {
        Err(Error::Parse(ParseError::InvalidXref)) => {}
        Err(other) => panic!("expected InvalidXref, got {other:?}"),
        Ok(doc) => panic!(
            "a 137-byte file claiming 1,000,000 xref entries loaded with {} entries",
            doc.reference_table.entries.len()
        ),
    }
}

#[test]
fn index_count_past_stream_length_is_rejected() {
    let pdf = xref_stream_pdf([1, 1, 1], 1_000_000, &[1, 0, 0]);
    match Document::load_mem(&pdf) {
        Err(Error::Parse(ParseError::InvalidXref)) => {}
        Err(other) => panic!("expected InvalidXref, got {other:?}"),
        Ok(_) => panic!("an /Index count far past the stream length was accepted"),
    }
}

#[test]
fn negative_index_count_is_rejected() {
    let pdf = xref_stream_pdf([1, 1, 1], -1, &[]);
    assert!(matches!(Document::load_mem(&pdf), Err(Error::Parse(ParseError::InvalidXref))));
}

#[test]
fn three_byte_xref_records_are_accepted() {
    let pdf = xref_stream_pdf([1, 2, 0], 2, &[0, 0, 0, 1, 0, 9]);
    Document::load_mem(&pdf).expect("/W [1 2 0] records should remain accepted");
}

#[test]
fn single_index_section_matching_stream_length_is_accepted() {
    let body = [1, 0, 0, 0, 9, 0, 0];
    let pdf = xref_stream_pdf_with_index([1, 4, 2], "0 1", &body);
    Document::load_mem(&pdf).expect("one seven-byte record should fit a seven-byte body");
}

#[test]
fn total_index_count_past_stream_length_is_rejected() {
    let body = [1, 0, 0, 0, 9, 0, 0];
    let pdf = xref_stream_pdf_with_index([1, 4, 2], "0 1 2 1", &body);
    assert!(matches!(Document::load_mem(&pdf), Err(Error::Parse(ParseError::InvalidXref))));
}

#[test]
fn degenerate_narrow_xref_records_are_rejected() {
    let pdf = xref_stream_pdf([0, 1, 0], 4, &[0; 4]);
    let result = Document::load_mem(&pdf);
    assert!(matches!(result, Err(Error::Parse(ParseError::InvalidXref))));
}

fn incremental_pdf() -> Vec<u8> {
    let mut pdf = b"%PDF-1.4\n".to_vec();
    let first = pdf.len();
    pdf.extend_from_slice(b"1 0 obj\n<< /Type /Catalog >>\nendobj\n");
    let second = pdf.len();
    pdf.extend_from_slice(b"2 0 obj\n7\nendobj\n");
    let first_xref = pdf.len();
    pdf.extend_from_slice(b"xref\n0 3\n0000000000 65535 f \n");
    pdf.extend_from_slice(format!("{first:010} 00000 n \n{second:010} 00000 n \n").as_bytes());
    pdf.extend_from_slice(b"trailer\n<< /Size 3 /Root 1 0 R >>\n");
    pdf.extend_from_slice(format!("startxref\n{first_xref}\n%%EOF\n").as_bytes());
    let third = pdf.len();
    pdf.extend_from_slice(b"2 0 obj\n99\nendobj\n3 0 obj\n(new)\nendobj\n");
    let fourth = third + b"2 0 obj\n99\nendobj\n".len();
    let second_xref = pdf.len();
    pdf.extend_from_slice(format!("xref\n2 2\n{third:010} 00000 n \n{fourth:010} 00000 n \n").as_bytes());
    pdf.extend_from_slice(format!("trailer\n<< /Size 4 /Root 1 0 R /Prev {first_xref} >>\n").as_bytes());
    pdf.extend_from_slice(format!("startxref\n{second_xref}\n%%EOF").as_bytes());
    pdf
}

#[test]
fn previous_revisions_are_merged_with_later_entries_winning() {
    let loaded = Document::load_mem(&incremental_pdf()).expect("an incremental file loads");
    assert_eq!(loaded.max_id, 3);
    assert_eq!(loaded.reference_table.size, 4);
    assert!(loaded.trailer.get(b"Prev").is_err());
    assert!(matches!(loaded.get_object((1, 0)), Ok(Object::Dictionary(_))));
    assert!(matches!(loaded.get_object((2, 0)), Ok(Object::Integer(99))));
    assert!(matches!(loaded.get_object((3, 0)), Ok(Object::String(s, _)) if s == b"new"));
}

#[test]
fn a_prev_past_the_end_is_refused() {
    let mut pdf = b"%PDF-1.4\n".to_vec();
    let first = pdf.len();
    pdf.extend_from_slice(b"1 0 obj\n5\nendobj\n");
    let xref = pdf.len();
    pdf.extend_from_slice(format!("xref\n0 2\n0000000000 65535 f \n{first:010} 00000 n \n").as_bytes());
    pdf.extend_from_slice(b"trailer\n<< /Size 2 /Prev 999999 >>\n");
    pdf.extend_from_slice(format!("startxref\n{xref}\n%%EOF").as_bytes());
    assert!(matches!(Document::load_mem(&pdf), Err(Error::Xref(XrefError::PrevStart))));
}

#[test]
fn load_document_with_preceding_bytes() {
    let mut doc = sample_document();
    let mut plain = Vec::new();
    doc.save_to(&mut plain);
    let mut with_garbage = b"garbage".to_vec();
    with_garbage.extend_from_slice(&plain);
    let a = Document::load_mem(&plain).unwrap();
    let b = Document::load_mem(&with_garbage).unwrap();
    assert_eq!(b.version, a.version);
    assert_eq!(b.objects.len(), a.objects.len());
    for (id, object) in a.objects.iter() {
        assert_eq!(format!("{:?}", b.objects.get(id).unwrap()), format!("{:?}", object));
    }
}
