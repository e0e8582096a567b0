use lopdf::content_parser::content;
use lopdf::file_structure::{header, trailer, xref, xref_start};
use lopdf::object::{Object, StringFormat};
use lopdf::parser::{direct_object, hexadecimal_string, literal_string, name, real_number, reference};
use lopdf::xref::XrefEntry;

fn whole<T>(r: Option<(T, usize)>, input: &[u8]) -> Option<T> {
    r.and_then(|(v, e)| if e == input.len() { Some(v) } else { None })
}

fn real_value(input: &[u8]) -> Option<f64> {
    whole(real_number(input, 0), input).map(|text| std::str::from_utf8(&text).unwrap().parse::<f64>().unwrap())
}

#[test]
fn nom_parser_parse_real_number() {
    assert_eq!(real_value(b"0.12"), Some(0.12));
    assert_eq!(real_value(b"-.12"), Some(-0.12));
    assert_eq!(real_value(b"10."), Some(10.0));
}

#[test]
fn parser_parse_real_number() {
    assert_eq!(real_value(b"0.12"), Some(0.12));
    assert_eq!(real_value(b"-.12"), Some(-0.12));
    assert_eq!(real_value(b"10."), Some(10.0));
}

fn literal(input: &[u8]) -> Option<Vec<u8>> {
    whole(literal_string(input, 0), input)
}

#[test]
fn nom_parser_parse_string() {
    let data = vec![
        ("()", ""),
        ("(text())", "text()"),
        ("(text\r\n\\\\(nested\\t\\b\\f))", "text\r\n\\(nested\t\x08\x0C)"),
        ("(text\\0\\53\\053\\0053)", "text\0++\x053"),
        ("(text line\\\n())", "text line()"),
    ];

    for (input, expected) in data {
        assert_eq!(
            literal(input.as_bytes()),
            Some(expected.as_bytes().to_vec()),
            "input: {:?} output: {:?}",
            input,
            expected,
        );
    }
}

#[test]
fn parser_parse_string() {
    assert_eq!(literal(b"()"), Some(b"".to_vec()));
    assert_eq!(literal(b"(text())"), Some(b"text()".to_vec()));
    assert_eq!(
        literal(b"(text\r\n\\\\(nested\\t\\b\\f))"),
        Some(b"text\r\n\\(nested\t\x08\x0C)".to_vec())
    );
    assert_eq!(literal(b"(text\\0\\53\\053\\0053)"), Some(b"text\0++\x053".to_vec()));
    assert_eq!(literal(b"(text line\\\n())"), Some(b"text line()".to_vec()));
    assert_eq!(whole(name(b"/ABC#5f", 0), b"/ABC#5f"), Some(b"ABC\x5F".to_vec()));
}

#[test]
fn literal_string_keeps_line_ends() {
    assert_eq!(literal(b"(a\r\nb\rc)"), Some(b"a\r\nb\rc".to_vec()));
    assert_eq!(literal(b"(unbalanced"), None);
}

#[test]
fn nom_parser_parse_name() {
    let (text, expected) = (b"/ABC#5f", b"ABC\x5F");
    let result = whole(name(text, 0), text);
    assert_eq!(result, Some(expected.to_vec()));

    let (text, expected) = (b"/#cb#ce#cc#e5", b"\xcb\xce\xcc\xe5");
    let result = whole(name(text, 0), text);
    assert_eq!(result, Some(expected.to_vec()));
}

#[test]
fn parser_parse_name() {
    let text = b"/#cb#ce#cc#e5";
    let parsed = whole(name(text, 0), text);
    println!("{:?}", parsed);
    assert_eq!(parsed.is_some(), true);
}

const CONTENT_SAMPLE: &[u8] = b"
2 J
BT
/F1 12 Tf
0 Tc
0 Tw
72.5 712 TD
[(Unencoded streams can be read easily) 65 (,) ] TJ
0 -14 TD
[(b) 20 (ut generally tak) 10 (e more space than \\311)] TJ
T* (encoded streams.) Tj
		";

#[test]
fn nom_parser_parse_content() {
    let parsed = content(CONTENT_SAMPLE);
    println!("{:?}", parsed);
    assert!(parsed.is_some());
}

#[test]
fn parser_parse_content() {
    let parsed = content(CONTENT_SAMPLE);
    println!("{:?}", parsed);
    let parsed = parsed.unwrap();
    assert_eq!(parsed.operations.len(), 11);
    assert_eq!(parsed.operations[0].operator, "J");
    assert!(matches!(parsed.operations[0].operands[..], [Object::Integer(2)]));
    assert_eq!(parsed.operations[10].operator, "Tj");
}

#[test]
fn hex_partial() {
    let input = b"<901FA>";
    let out = whole(hexadecimal_string(input, 0), input);
    match out {
        Some(s) => assert_eq!(s, b"\x90\x1F\xA0".to_vec()),
        _ => panic!("unexpected {:?}", out),
    }
}

#[test]
fn hex_separated() {
    let input = b"<9 01F A>";
    let out = whole(hexadecimal_string(input, 0), input);
    match out {
        Some(s) => assert_eq!(s, b"\x90\x1F\xA0".to_vec()),
        _ => panic!("unexpected {:?}", out),
    }
}

#[test]
fn big_generation_value() {
    let input = b"xref
0 1
0000000000 65536 f 
0 16
0000000000 65535 f 
0000153238 00000 n 
0000000019 00000 n 
0000000313 00000 n 
0000000333 00000 n 
0000145531 00000 n 
0000153407 00000 n 
0000145554 00000 n 
0000152303 00000 n 
0000152324 00000 n 
0000152514 00000 n 
0000152880 00000 n 
0000153106 00000 n 
0000153139 00000 n 
0000153532 00000 n 
0000153629 00000 n 
trailer
<</Size 16/Root 14 0 R
/Info 15 0 R
/ID [ <9DDC4B621B3F485FF5ED0F57D00A028F>
<9DDC4B621B3F485FF5ED0F57D00A028F> ]
/DocChecksum /2BCC3C7DE26E6BF3573E4A6E8362221F
>>
startxref
153804
%%EOF
";
    match xref(input, 0) {
        Some((re, _)) => assert_eq!(re.entries.len(), 15),
        None => panic!("unexpected {:?}", input),
    }
}

#[test]
fn xref_table_entries_and_trailer() {
    let input = b"xref\n0 3\n0000000000 65535 f \n0000000017 00000 n \n0000000081 00002 n \ntrailer\n<</Size 3>>\n";
    let (table, end) = xref(input, 0).unwrap();
    assert_eq!(table.entries.len(), 2);
    assert_eq!(table.entries.get(&1), Some(&XrefEntry::Normal { offset: 17, generation: 0 }));
    assert_eq!(table.entries.get(&2), Some(&XrefEntry::Normal { offset: 81, generation: 2 }));
    let (dict, _) = trailer(input, end).unwrap();
    assert!(matches!(dict.get(b"Size"), Ok(Object::Integer(3))));
}

#[test]
fn content_with_comments() {
    let input = b"0.5 0.5 0.5 setrgbcolor
% This is a comment
100 100 moveto
(Hello, world!) show
% Another comment
";
    let out = content(input).unwrap();
    assert_eq!(out.operations.len(), 3);
}

#[test]
fn header_and_startxref() {
    assert_eq!(header(b"%PDF-1.7\n%\xE2\xE3\n"), Some("1.7".to_string()));
    assert_eq!(header(b"%PDX-1.7\n"), None);
    assert_eq!(xref_start(b"startxref\n153804\n%%EOF\n"), Some(153804));
}

#[test]
fn direct_objects_of_each_kind() {
    assert!(matches!(direct_object(b"null"), Some(Object::Null)));
    assert!(matches!(direct_object(b"true"), Some(Object::Boolean(true))));
    assert!(matches!(direct_object(b"-17"), Some(Object::Integer(-17))));
    assert!(matches!(direct_object(b"12 0 R"), Some(Object::Reference((12, 0)))));
    match direct_object(b"<</Type /Page /Kids [1 0 R (x)]>>") {
        Some(Object::Dictionary(d)) => {
            assert!(matches!(d.get(b"Type"), Ok(Object::Name(n)) if n == b"Page"));
            match d.get(b"Kids") {
                Ok(Object::Array(items)) => {
                    assert_eq!(items.len(), 2);
                    assert!(matches!(&items[1], Object::String(s, StringFormat::Literal) if s == b"x"));
                }
                other => panic!("unexpected {:?}", other),
            }
        }
        other => panic!("unexpected {:?}", other),
    }
    assert_eq!(whole(reference(b"3 1 R", 0).map(|(a, b, e)| ((a, b), e)), b"3 1 R"), Some((3, 1)));
}
