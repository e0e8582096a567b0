use std::collections::HashMap;

use lopdf::document::Document;
use lopdf::object::Object;

fn pdf_from_objects(objects: &[(u32, &[u8])], xref_overrides: &[(u32, usize)]) -> (Vec<u8>, HashMap<u32, usize>) {
    let mut pdf = Vec::new();
    let mut physical = HashMap::new();

    pdf.extend_from_slice(b"%PDF-1.7\n");
    for (id, body) in objects {
        physical.insert(*id, pdf.len());
        pdf.extend_from_slice(format!("{id} 0 obj\n").as_bytes());
        pdf.extend_from_slice(body);
        pdf.extend_from_slice(b"endobj\n");
    }

    let xref_offset = pdf.len();
    let size = objects.iter().map(|(id, _)| *id).max().unwrap_or(0) + 1;
    pdf.extend_from_slice(b"xref\n");
    pdf.extend_from_slice(format!("0 {size}\n0000000000 65535 f \n").as_bytes());
    for object_number in 1..size {
        let offset = xref_overrides
            .iter()
            .find(|&&(id, _)| id == object_number)
            .map(|&(_, offset)| offset)
            .or_else(|| physical.get(&object_number).copied())
            .expect("xref entry missing for object");
        pdf.extend_from_slice(format!("{offset:010} 00000 n \n").as_bytes());
    }
    pdf.extend_from_slice(
        format!("trailer\n<< /Size {size} /Root 1 0 R >>\nstartxref\n{xref_offset}\n%%EOF\n").as_bytes(),
    );
    (pdf, physical)
}

fn catalog() -> &'static [u8] {
    b"<< /Type /Catalog /Pages 2 0 R >>\n"
}

fn pages(kids: &str) -> Vec<u8> {
    format!("<< /Type /Pages /Kids [{kids}] /Count 1 >>\n").into_bytes()
}

fn page(xobjects: &str) -> Vec<u8> {
    format!("<< /Type /Page /Parent 2 0 R /MediaBox [0 0 10 10] /Resources << /XObject << {xobjects} >> >> >>\n")
        .into_bytes()
}

fn image_stream_body(content: &[u8]) -> Vec<u8> {
    let mut body = format!(
        "<< /Type /XObject /Subtype /Image /Width {} /Height 1 /ColorSpace /DeviceRGB \
         /BitsPerComponent 8 /Length {} >>\nstream\n",
        content.len() / 3,
        content.len()
    )
    .into_bytes();
    body.extend_from_slice(content);
    body.extend_from_slice(b"\nendstream\n");
    body
}

fn stream_data_start(pdf: &[u8]) -> usize {
    pdf.windows(7)
        .position(|window| window == b"stream\n")
        .expect("no stream keyword")
        + 7
}

#[test]
fn accurate_but_out_of_order_xref_offsets_load_every_object() {
    let content = vec![b'A'; 48];
    let objects: Vec<(u32, Vec<u8>)> = vec![
        (1, catalog().to_vec()),
        (2, pages("3 0 R")),
        (4, image_stream_body(&content)),
        (3, page("/Im0 4 0 R")),
    ];
    let bodies: Vec<(u32, &[u8])> = objects.iter().map(|(id, body)| (*id, body.as_slice())).collect();
    let (pdf, _) = pdf_from_objects(&bodies, &[]);

    let document = Document::load_mem(&pdf).unwrap();
    assert!(document.get_object((1, 0)).is_ok());
    assert!(document.get_object((2, 0)).is_ok());
    assert!(document.get_object((3, 0)).is_ok());
    let Object::Stream(stream) = document.get_object((4, 0)).unwrap() else {
        panic!("image object must remain a stream");
    };
    assert_eq!(stream.content, content);
}

#[test]
fn inaccurate_xref_offset_inside_a_stream_only_loses_the_mislocated_object() {
    let content = vec![b'A'; 48];
    let objects: Vec<(u32, Vec<u8>)> = vec![
        (1, catalog().to_vec()),
        (2, pages("3 0 R")),
        (3, page("/Im0 4 0 R /F1 5 0 R")),
        (4, image_stream_body(&content)),
        (5, b"<< /Type /Font >>\n".to_vec()),
    ];
    let bodies: Vec<(u32, &[u8])> = objects.iter().map(|(id, body)| (*id, body.as_slice())).collect();
    let (pdf, _) = pdf_from_objects(&bodies, &[]);
    let false_offset = stream_data_start(&pdf) + 16;
    let (pdf, _) = pdf_from_objects(&bodies, &[(5, false_offset)]);

    let document = Document::load_mem(&pdf).unwrap();
    assert!(document.get_object((1, 0)).is_ok());
    assert!(document.get_object((2, 0)).is_ok());
    assert!(document.get_object((3, 0)).is_ok());
    let Object::Stream(stream) = document.get_object((4, 0)).unwrap() else {
        panic!("image object must remain a stream");
    };
    assert_eq!(stream.content, content);
    assert!(document.get_object((5, 0)).is_err());
}

#[test]
fn out_of_order_xref_with_offset_inside_a_stream_only_loses_the_mislocated_object() {
    let content = vec![b'A'; 48];
    let objects: Vec<(u32, Vec<u8>)> = vec![
        (1, catalog().to_vec()),
        (2, pages("3 0 R")),
        (4, image_stream_body(&content)),
        (3, page("/Im0 4 0 R")),
    ];
    let bodies: Vec<(u32, &[u8])> = objects.iter().map(|(id, body)| (*id, body.as_slice())).collect();
    let (pdf, _) = pdf_from_objects(&bodies, &[]);
    let false_offset = stream_data_start(&pdf) + 16;
    let (pdf, _) = pdf_from_objects(&bodies, &[(3, false_offset)]);

    let document = Document::load_mem(&pdf).unwrap();
    assert!(document.get_object((1, 0)).is_ok());
    assert!(document.get_object((2, 0)).is_ok());
    assert!(document.get_object((3, 0)).is_err());
    let Object::Stream(stream) = document.get_object((4, 0)).unwrap() else {
        panic!("image object must remain a stream");
    };
    assert_eq!(stream.content, content);
}

