use lopdf::encodings::{bytes_to_string, string_to_bytes, CodedCharacterSet};

fn small_encoding() -> CodedCharacterSet {
    let mut enc: CodedCharacterSet = [None; 256];
    for b in 0x20u16..0x7f {
        enc[b as usize] = Some(b);
    }
    enc[0xE9] = Some(0xE9);
    enc[0x80] = Some(0xD83D);
    enc[0x81] = Some(0xDE00);
    enc
}

#[test]
fn one_byte_text_round_trips() {
    let enc = small_encoding();
    let bytes = string_to_bytes(&enc, "Caf\u{e9} \u{1F600}");
    assert_eq!(bytes, vec![0x43, 0x61, 0x66, 0xE9, 0x20, 0x80, 0x81]);
    assert_eq!(bytes_to_string(&enc, &bytes), "Caf\u{e9} \u{1F600}");
}

#[test]
fn bytes_that_stand_for_nothing_are_dropped() {
    let enc = small_encoding();
    assert_eq!(bytes_to_string(&enc, &[0x41, 0x01, 0x42]), "AB");
    assert_eq!(string_to_bytes(&enc, "A\u{263A}B"), vec![0x41, 0x42]);
}
