use lopdf::content::{Content, Operation};
use lopdf::document::Document;
use lopdf::object::{Dictionary, Object, Stream, StringFormat};
use lopdf::processor::TraverseAction;

fn dict(entries: Vec<(&[u8], Object)>) -> Dictionary {
    let mut d = Dictionary::new();
    for (k, v) in entries {
        d.set(k.to_vec(), v);
    }
    d
}

fn name(n: &[u8]) -> Object {
    Object::Name(n.to_vec())
}

fn sample() -> Document {
    let mut doc = Document::with_version("1.7");
    doc.objects.insert((1, 0), Object::Dictionary(dict(vec![(b"Type", name(b"Catalog")), (b"Pages", Object::Reference((2, 0)))])));
    doc.objects.insert(
        (2, 0),
        Object::Dictionary(dict(vec![
            (b"Type", name(b"Pages")),
            (b"Kids", Object::Array(vec![Object::Reference((3, 0)), Object::Reference((4, 0)), Object::Reference((5, 0))])),
            (b"Count", Object::Integer(2)),
            (b"Resources", Object::Reference((9, 0))),
        ])),
    );
    doc.objects.insert(
        (3, 0),
        Object::Dictionary(dict(vec![
            (b"Type", name(b"Page")),
            (b"Parent", Object::Reference((2, 0))),
            (b"Contents", Object::Reference((6, 0))),
            (b"Annots", Object::Array(vec![Object::Reference((7, 0))])),
        ])),
    );
    doc.objects.insert(
        (4, 0),
        Object::Dictionary(dict(vec![
            (b"Type", name(b"Pages")),
            (b"Kids", Object::Array(vec![Object::Reference((8, 0))])),
            (b"Parent", Object::Reference((2, 0))),
        ])),
    );
    doc.objects.insert((5, 0), Object::Dictionary(dict(vec![(b"Type", name(b"Font"))])));
    doc.objects.insert((6, 0), Object::Stream(Stream::new(Dictionary::new(), b"BT ET".to_vec())));
    doc.objects.insert((7, 0), Object::Dictionary(dict(vec![(b"Type", name(b"Annot"))])));
    doc.objects.insert(
        (8, 0),
        Object::Dictionary(dict(vec![
            (b"Type", name(b"Page")),
            (b"Parent", Object::Reference((4, 0))),
            (b"Contents", Object::Array(vec![Object::Reference((6, 0)), Object::Reference((10, 0))])),
        ])),
    );
    doc.objects.insert((9, 0), Object::Dictionary(dict(vec![(b"Font", Object::Dictionary(Dictionary::new()))])));
    doc.objects.insert((10, 0), Object::Stream(Stream::new(Dictionary::new(), b"q Q".to_vec())));
    doc.objects.insert((11, 0), Object::Integer(5));
    doc.max_id = 11;
    doc.trailer.set(b"Root".to_vec(), Object::Reference((1, 0)));
    doc
}

#[test]
fn pages_are_listed_in_tree_order() {
    let doc = sample();
    assert_eq!(doc.page_iter(), vec![(3, 0), (8, 0)]);
    let pages = doc.get_pages();
    assert_eq!(pages.len(), 2);
    assert_eq!(pages.get(&1), Some(&(3, 0)));
    assert_eq!(pages.get(&2), Some(&(8, 0)));
}

#[test]
fn catalog_and_dict_in_dict() {
    let doc = sample();
    let catalog = doc.catalog().expect("the trailer names a catalog");
    assert!(matches!(catalog.get(b"Type"), Ok(Object::Name(n)) if n == b"Catalog"));
    let pages = doc.get_dict_in_dict(catalog, b"Pages").expect("the catalog refers to the page tree");
    assert!(matches!(pages.get(b"Count"), Ok(Object::Integer(2))));
    assert!(doc.get_dict_in_dict(catalog, b"Outlines").is_err());
}

#[test]
fn page_contents_and_content() {
    let doc = sample();
    assert_eq!(doc.get_page_contents((3, 0)), vec![(6, 0)]);
    assert_eq!(doc.get_page_contents((8, 0)), vec![(6, 0), (10, 0)]);
    assert_eq!(doc.get_page_contents((7, 0)), vec![]);
    assert_eq!(doc.get_page_content((8, 0)).unwrap(), b"BT ET\nq Q");
}

#[test]
fn page_annotations_and_object_page() {
    let doc = sample();
    let annotations = doc.get_page_annotations((3, 0)).unwrap();
    assert_eq!(annotations.len(), 1);
    assert!(matches!(annotations[0].get(b"Type"), Ok(Object::Name(n)) if n == b"Annot"));
    assert!(doc.get_page_annotations((8, 0)).unwrap().is_empty());
    assert_eq!(doc.get_object_page((7, 0)).ok(), Some((3, 0)));
}

#[test]
fn page_resources_follow_parents() {
    let doc = sample();
    let (direct, ids) = doc.get_page_resources((8, 0));
    assert!(direct.is_none());
    assert_eq!(ids, vec![(9, 0)]);
}

#[test]
fn page_contents_can_be_added() {
    let mut doc = sample();
    doc.add_page_contents((3, 0), b"0 g".to_vec()).unwrap();
    assert_eq!(doc.max_id, 12);
    assert_eq!(doc.get_page_contents((3, 0)), vec![(6, 0), (12, 0)]);
    assert_eq!(doc.get_page_content((3, 0)).unwrap(), b"BT ET\n0 g");
    assert!(doc.add_page_contents((40, 0), b"x".to_vec()).is_err());
}

#[test]
fn traversal_reaches_what_the_trailer_reaches() {
    let mut doc = sample();
    let refs = doc.traverse_objects(&TraverseAction::Nothing);
    assert_eq!(refs[0], (1, 0));
    for id in [(1, 0), (2, 0), (3, 0), (4, 0), (5, 0), (6, 0), (7, 0), (8, 0), (9, 0), (10, 0)] {
        assert!(refs.contains(&id), "{:?} is reachable", id);
    }
    assert!(!refs.contains(&(11, 0)));
}

#[test]
fn unreachable_objects_are_pruned() {
    let mut doc = sample();
    let removed = doc.prune_objects();
    assert_eq!(removed, vec![(11, 0)]);
    assert_eq!(doc.objects.len(), 10);
}

#[test]
fn deleting_an_object_drops_references_to_it() {
    let mut doc = sample();
    let removed = doc.delete_object(&(7, 0));
    assert!(matches!(removed, Some(Object::Dictionary(_))));
    assert!(!doc.objects.contains_key(&(7, 0)));
    match doc.objects.get(&(3, 0)) {
        Some(Object::Dictionary(d)) => assert!(matches!(d.get(b"Annots"), Ok(Object::Array(a)) if a.is_empty())),
        other => panic!("unexpected {:?}", other),
    }
    assert!(doc.delete_object(&(70, 0)).is_none());
}

#[test]
fn zero_length_streams_are_deleted() {
    let mut doc = sample();
    doc.objects.insert((12, 0), Object::Stream(Stream::new(Dictionary::new(), Vec::new())));
    doc.objects.insert((13, 0), Object::Reference((12, 0)));
    let deleted = doc.delete_zero_length_streams();
    assert_eq!(deleted, vec![(12, 0)]);
    assert!(!doc.objects.contains_key(&(12, 0)));
    assert_eq!(doc.objects.len(), 12);
}

#[test]
fn objects_are_renumbered_from_one() {
    let mut doc = Document::new();
    doc.objects.insert((5, 0), Object::Dictionary(dict(vec![(b"Next", Object::Reference((9, 0)))])));
    doc.objects.insert((9, 0), Object::Integer(1));
    doc.trailer.set(b"Root".to_vec(), Object::Reference((5, 0)));
    doc.max_id = 9;
    doc.renumber_objects();
    assert_eq!(doc.max_id, 2);
    assert!(matches!(doc.trailer.get(b"Root"), Ok(Object::Reference((1, 0)))));
    match doc.objects.get(&(1, 0)) {
        Some(Object::Dictionary(d)) => assert!(matches!(d.get(b"Next"), Ok(Object::Reference((2, 0))))),
        other => panic!("unexpected {:?}", other),
    }
    assert!(matches!(doc.objects.get(&(2, 0)), Some(Object::Integer(1))));
}

#[test]
fn compress_then_decompress_restores_content() {
    let mut doc = Document::new();
    let data = b"0 0 m 100 100 l S ".repeat(20);
    doc.objects.insert((1, 0), Object::Stream(Stream::new(Dictionary::new(), data.clone())));
    doc.compress();
    match doc.objects.get(&(1, 0)) {
        Some(Object::Stream(st)) => {
            assert!(st.content.len() < data.len());
            assert!(matches!(st.dict.get(b"Filter"), Ok(Object::Name(n)) if n == b"FlateDecode"));
        }
        other => panic!("unexpected {:?}", other),
    }
    doc.decompress();
    match doc.objects.get(&(1, 0)) {
        Some(Object::Stream(st)) => {
            assert_eq!(st.content, data);
            assert!(st.dict.get(b"Filter").is_err());
        }
        other => panic!("unexpected {:?}", other),
    }
}

#[test]
fn producer_is_set_in_the_info_dictionary() {
    let mut doc = sample();
    doc.objects.insert((12, 0), Object::Dictionary(Dictionary::new()));
    doc.trailer.set(b"Info".to_vec(), Object::Reference((12, 0)));
    doc.change_producer("verified");
    match doc.objects.get(&(12, 0)) {
        Some(Object::Dictionary(d)) => {
            assert!(matches!(d.get(b"Producer"), Ok(Object::String(s, StringFormat::Literal)) if s == b"verified"))
        }
        other => panic!("unexpected {:?}", other),
    }
}

#[test]
fn page_content_is_replaced() {
    let mut doc = sample();
    doc.change_page_content((3, 0), b"1 0 0 RG".to_vec());
    assert_eq!(doc.get_page_content((3, 0)).unwrap(), b"1 0 0 RG");
    doc.change_page_content((8, 0), b"0 1 0 RG".to_vec());
    assert_eq!(doc.get_page_contents((8, 0)), vec![(12, 0)]);
    assert_eq!(doc.get_page_content((8, 0)).unwrap(), b"0 1 0 RG");
}

#[test]
fn save_document() {
    let mut doc = Document::with_version("1.5");
    doc.objects.insert((1, 0), Object::Null);
    doc.objects.insert((2, 0), Object::Boolean(true));
    doc.objects.insert((3, 0), Object::Integer(3));
    doc.objects.insert((4, 0), Object::Real(b"0.5".to_vec()));
    doc.objects.insert((5, 0), Object::String("text((\r)".as_bytes().to_vec(), StringFormat::Literal));
    doc.objects.insert((6, 0), Object::String("text((\r)".as_bytes().to_vec(), StringFormat::Hexadecimal));
    doc.objects.insert((7, 0), Object::Name(b"name \t".to_vec()));
    doc.objects.insert((8, 0), Object::Reference((1, 0)));
    doc.objects.insert((9, 2), Object::Array(vec![Object::Integer(1), Object::Integer(2), Object::Integer(3)]));
    doc.objects.insert((11, 0), Object::Stream(Stream::new(Dictionary::new(), vec![0x41, 0x42, 0x43])));
    let mut dict = Dictionary::new();
    dict.set(b"A".to_vec(), Object::Null);
    dict.set(b"B".to_vec(), Object::Boolean(false));
    dict.set(b"C".to_vec(), Object::Name(b"name".to_vec()));
    doc.objects.insert((12, 0), Object::Dictionary(dict));
    doc.max_id = 12;

    let mut out = Vec::new();
    doc.save_to(&mut out);
    assert!(out.starts_with(b"%PDF-1.5"));
    let loaded = Document::load_mem(&out).expect("the saved bytes load");
    assert_eq!(loaded.objects.len(), 11);
}

#[test]
fn page_content_decodes_into_operations() {
    let doc = sample();
    let content = doc.get_and_decode_page_content((8, 0)).unwrap();
    let operators: Vec<&str> = content.operations.iter().map(|op| op.operator.as_str()).collect();
    assert_eq!(operators, vec!["BT", "ET", "q", "Q"]);
}

#[test]
fn operations_are_added_to_a_page() {
    let mut doc = sample();
    let content = Content { operations: vec![Operation::new("q", vec![]), Operation::new("Q", vec![])] };
    doc.add_to_page_content((3, 0), content).unwrap();
    assert_eq!(doc.get_page_content((3, 0)).unwrap(), b"BT ET\nq\nQ\n");
}

#[test]
fn entries_are_followed_through_references() {
    let doc = sample();
    let page = doc.get_dictionary((3, 0)).unwrap();
    assert!(matches!(page.get_deref(b"Parent", &doc), Ok(Object::Dictionary(d)) if d.has(b"Kids")));
    assert!(page.get_deref(b"Missing", &doc).is_err());
    assert_eq!(page.get_type_name().ok(), Some(&b"Page"[..]));
    assert_eq!(doc.get_object((6, 0)).unwrap().get_type_name().ok(), None);
    assert!(Object::Integer(1).get_type_name().is_err());
}

fn compressed(data: &[u8]) -> Vec<u8> {
    let mut encoder = flate2::write::ZlibEncoder::new(Vec::new(), flate2::Compression::best());
    std::io::Write::write_all(&mut encoder, data).unwrap();
    encoder.finish().unwrap()
}

#[test]
fn page_content_separates_streams_with_a_line_feed() {
    let mut doc = Document::with_version("1.5");
    let mut refs = Vec::new();
    for text in [&b"1 0 0 1 50 100 cm"[..], &b"BT /F1 12 Tf (hi) Tj ET"[..]] {
        let stream = Stream::new(dict(vec![(b"Filter", name(b"FlateDecode"))]), compressed(text));
        refs.push(Object::Reference(doc.add_object(Object::Stream(stream))));
    }
    let page_id = doc.add_object(Object::Dictionary(dict(vec![(b"Type", name(b"Page")), (b"Contents", Object::Array(refs))])));
    assert_eq!(doc.get_page_content(page_id).unwrap(), b"1 0 0 1 50 100 cm\nBT /F1 12 Tf (hi) Tj ET");
}

fn annot(contents: &[u8]) -> Dictionary {
    dict(vec![
        (b"Type", name(b"Annot")),
        (b"Subtype", name(b"Text")),
        (b"Contents", Object::string_literal(contents.to_vec())),
    ])
}

fn page_with_mixed_annots(annots_indirect: bool) -> (Document, (u32, u16)) {
    let mut doc = Document::with_version("1.7");
    let referenced = doc.add_object(Object::Dictionary(annot(b"referenced")));
    let entries = vec![Object::Reference(referenced), Object::Dictionary(annot(b"direct"))];
    let annots = if annots_indirect {
        Object::Reference(doc.add_object(Object::Array(entries)))
    } else {
        Object::Array(entries)
    };
    let page_id = doc.add_object(Object::Dictionary(dict(vec![(b"Type", name(b"Page")), (b"Annots", annots)])));
    (doc, page_id)
}

fn contents_of(doc: &Document, page_id: (u32, u16)) -> Vec<String> {
    doc.get_page_annotations(page_id)
        .unwrap()
        .iter()
        .map(|a| String::from_utf8_lossy(a.get(b"Contents").unwrap().as_str().unwrap()).into_owned())
        .collect()
}

#[test]
fn page_annotations_include_direct_dictionaries() {
    let (doc, page_id) = page_with_mixed_annots(false);
    assert_eq!(contents_of(&doc, page_id), vec!["referenced", "direct"]);
}

#[test]
fn page_annotations_include_direct_dictionaries_behind_an_indirect_annots() {
    let (doc, page_id) = page_with_mixed_annots(true);
    assert_eq!(contents_of(&doc, page_id), vec!["referenced", "direct"]);
}

#[test]
fn page_annotations_skip_a_dangling_reference() {
    let mut doc = Document::with_version("1.7");
    let good = doc.add_object(Object::Dictionary(annot(b"kept")));
    let page_id = doc.add_object(Object::Dictionary(dict(vec![
        (b"Type", name(b"Page")),
        (b"Annots", Object::Array(vec![Object::Reference((9999, 0)), Object::Reference(good), Object::Null])),
    ])));
    assert_eq!(contents_of(&doc, page_id), vec!["kept"]);
}

#[test]
fn page_annotations_without_annots_is_empty() {
    let mut doc = Document::with_version("1.7");
    let page_id = doc.add_object(Object::Dictionary(dict(vec![(b"Type", name(b"Page"))])));
    assert!(doc.get_page_annotations(page_id).unwrap().is_empty());
}

#[test]
fn page_annotations_behind_a_reference_to_no_array_is_an_error() {
    let mut doc = Document::with_version("1.7");
    let not_array = doc.add_object(Object::Integer(3));
    let page_id = doc.add_object(Object::Dictionary(dict(vec![(b"Type", name(b"Page")), (b"Annots", Object::Reference(not_array))])));
    assert!(doc.get_page_annotations(page_id).is_err());
}
