use lopdf::encodings::cmap::{BfRangeTarget, CMapSection, ToUnicodeCMap, UnicodeCMapError};
use lopdf::encodings::Encoding;

#[test]
fn put_char_can_be_retrieved() {
    let mut cmap = ToUnicodeCMap::new();
    let char_code = 0x01;
    let char_value = vec![0x1234];
    cmap.put_char(char_code, 2, char_value.clone());

    assert_eq!(cmap.get(char_code, 2), Some(char_value))
}

#[test]
fn char_can_be_retrieved_only_by_appropriate_len() {
    let mut cmap = ToUnicodeCMap::new();
    let char_code = 0x1;
    let code_len = 4;
    let char_value = vec![0x1234];
    cmap.put_char(char_code, code_len, char_value.clone());

    for i in 1..=3 {
        assert_eq!(cmap.get(char_code, i), None);
    }

    assert_eq!(cmap.get(char_code, code_len), Some(char_value));
}

#[test]
fn wrong_code_len_does_not_panic() {
    let mut cmap = ToUnicodeCMap::new();
    let char_code = 0x1;
    let char_value = vec![0x1234];

    cmap.put_char(char_code, 5, char_value.clone());
    cmap.put_char(char_code, 0, char_value.clone());
}

#[test]
fn ranges_give_consecutive_code_points() {
    let mut cmap = ToUnicodeCMap::new();
    cmap.put(0x10, 0x1f, 2, BfRangeTarget::UTF16CodePoint { offset: 0x30 });
    assert_eq!(cmap.get(0x10, 2), Some(vec![0x40]));
    assert_eq!(cmap.get(0x1f, 2), Some(vec![0x4f]));
    assert_eq!(cmap.get(0x20, 2), None);
    assert_eq!(cmap.get_or_replacement_char(0x20, 2), vec![0xfffd]);
}

#[test]
fn hex_string_ranges_raise_the_last_unit() {
    let mut cmap = ToUnicodeCMap::new();
    cmap.put(0x100, 0x102, 2, BfRangeTarget::HexString(vec![0x66, 0x61]));
    assert_eq!(cmap.get(0x102, 2), Some(vec![0x66, 0x63]));
    cmap.put(0x101, 0x101, 2, BfRangeTarget::ArrayOfHexStrings(vec![vec![0x7a]]));
    assert_eq!(cmap.get(0x101, 2), Some(vec![0x7a]));
    assert_eq!(cmap.get(0x102, 2), Some(vec![0x66, 0x61]));
}

#[test]
fn unicode_with_2byte_code_does_not_convert_single_bytes() {
    let mut cmap = ToUnicodeCMap::new();

    cmap.put(0x0000, 0x0002, 2, BfRangeTarget::UTF16CodePoint { offset: 0 });
    cmap.put(0x0024, 0x0025, 2, BfRangeTarget::UTF16CodePoint { offset: 0 });

    let bytes: [u8; 2] = [0x00, 0x24];

    let result = Encoding::UnicodeMapEncoding(cmap).bytes_to_string(&bytes);

    assert_eq!(result.unwrap(), "\u{0024}");
}

#[test]
fn unicode_map_gives_replacement_for_unmapped_codes() {
    let mut cmap = ToUnicodeCMap::new();
    cmap.put(0x41, 0x42, 1, BfRangeTarget::UTF16CodePoint { offset: 0 });
    let result = Encoding::UnicodeMapEncoding(cmap).bytes_to_string(&[0x41, 0x42, 0x00, 0x00, 0x00, 0x00, 0x00]);
    assert_eq!(result.unwrap(), "AB\u{fffd}\u{fffd}");
}

#[test]
fn cmap_from_sections_maps_chars_and_ranges() {
    let sections = vec![
        CMapSection::CsRange(vec![((0, 0xffff), 2)]),
        CMapSection::BfChar(vec![((0x0003, 2), vec![0x0041]), ((0x0004, 2), vec![0x0066, 0x0069])]),
        CMapSection::BfRange(vec![
            ((0x0010, 0x0012, 2), vec![vec![0x0061]]),
            ((0x0020, 0x0021, 2), vec![vec![0x0031], vec![0x0032, 0x0033]]),
        ]),
    ];
    let cmap = ToUnicodeCMap::from_sections(sections).unwrap();
    assert_eq!(cmap.get(0x0003, 2), Some(vec![0x41]));
    assert_eq!(cmap.get(0x0004, 2), Some(vec![0x66, 0x69]));
    assert_eq!(cmap.get(0x0011, 2), Some(vec![0x62]));
    assert_eq!(cmap.get(0x0021, 2), Some(vec![0x32, 0x33]));
    assert_eq!(cmap.get(0x0005, 2), None);
    assert_eq!(cmap.get(0x0003, 1), None);
}

#[test]
fn cmap_from_sections_refuses_invalid_ranges() {
    let reversed = vec![CMapSection::BfRange(vec![((0x0012, 0x0010, 2), vec![vec![0x0061]])])];
    assert!(matches!(ToUnicodeCMap::from_sections(reversed), Err(UnicodeCMapError::InvalidCodeRange)));
    let no_text = vec![CMapSection::BfRange(vec![((0x0010, 0x0012, 2), vec![])])];
    assert!(matches!(ToUnicodeCMap::from_sections(no_text), Err(UnicodeCMapError::InvalidCodeRange)));
}
