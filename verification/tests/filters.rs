use lopdf::decode::{decode_ascii_hex, decompress_brotli};
use lopdf::error::{DecompressError, Error};
use lopdf::object::{Dictionary, Object, Stream};

const PAYLOAD: &[u8] = b"BrotliDecode works across filter layers.";
const COMPRESSED_PAYLOAD: &[u8] = &[
    27, 39, 0, 224, 28, 169, 83, 159, 59, 116, 45, 84, 246, 38, 39, 65, 136, 232, 26, 196, 37, 141, 13, 108, 192, 129,
    75, 84, 35, 221, 153, 78, 105, 229, 184, 47, 49, 2, 83, 8, 107, 4, 164,
];
const COMPRESSED_ASCII_HEX: &[u8] = &[11, 5, 128, 52, 56, 54, 53, 54, 99, 54, 99, 54, 102, 62, 3];

fn brotli_stream(content: &[u8]) -> Stream {
    let mut dict = Dictionary::new();
    dict.set(b"Filter".to_vec(), Object::Name(b"BrotliDecode".to_vec()));
    Stream::new(dict, content.to_vec())
}

#[test]
fn brotli_filter_decodes_and_honors_output_limit() {
    let stream = brotli_stream(COMPRESSED_PAYLOAD);

    assert_eq!(stream.decompressed_content().unwrap(), PAYLOAD);
    assert_eq!(stream.decompressed_content_with_limit(PAYLOAD.len()).unwrap(), PAYLOAD);
    assert!(matches!(
        stream.decompressed_content_with_limit(PAYLOAD.len() - 1),
        Err(Error::Decompress(DecompressError::MemoryLimitExceeded { limit })) if limit == PAYLOAD.len() - 1
    ));
}

#[test]
fn brotli_filter_is_bounded_before_the_next_filter_layer() {
    let mut dict = Dictionary::new();
    dict.set(
        b"Filter".to_vec(),
        Object::Array(vec![Object::Name(b"BrotliDecode".to_vec()), Object::Name(b"ASCIIHexDecode".to_vec())]),
    );
    let stream = Stream::new(dict, COMPRESSED_ASCII_HEX.to_vec());

    assert_eq!(stream.decompressed_content_with_limit(11).unwrap(), b"Hello");
    assert!(matches!(
        stream.decompressed_content_with_limit(5),
        Err(Error::Decompress(DecompressError::MemoryLimitExceeded { limit: 5 }))
    ));
}

#[test]
fn brotli_filter_ignores_decode_parms() {
    let mut parms = Dictionary::new();
    parms.set(b"Predictor".to_vec(), Object::Integer(12));
    parms.set(b"Columns".to_vec(), Object::Integer(4));
    let mut dict = Dictionary::new();
    dict.set(b"Filter".to_vec(), Object::Name(b"BrotliDecode".to_vec()));
    dict.set(b"DecodeParms".to_vec(), Object::Dictionary(parms));
    let stream = Stream::new(dict, COMPRESSED_PAYLOAD.to_vec());

    assert_eq!(stream.decompressed_content().unwrap(), PAYLOAD);
}

#[test]
fn brotli_rejects_data_that_does_not_decode() {
    assert!(matches!(decompress_brotli(b"not brotli at all", None), Err(Error::Decompress(DecompressError::Brotli))));
    assert!(matches!(decompress_brotli(&COMPRESSED_PAYLOAD[..20], None), Err(_)));
}

#[test]
fn ascii_hex_decodes_pairs_and_a_lone_last_digit() {
    assert_eq!(decode_ascii_hex(b"48 65 6c6C 6f>", None).unwrap(), b"Hello");
    assert_eq!(decode_ascii_hex(b"7>", None).unwrap(), vec![0x70]);
    assert_eq!(decode_ascii_hex(b"414>4243", None).unwrap(), vec![0x41, 0x40]);
    assert_eq!(decode_ascii_hex(b"", None).unwrap(), Vec::<u8>::new());
}

#[test]
fn ascii_hex_rejects_other_characters_and_honors_limit() {
    assert!(matches!(decode_ascii_hex(b"4G>", None), Err(Error::Decompress(DecompressError::AsciiHex))));
    assert!(matches!(
        decode_ascii_hex(b"414243>", Some(2)),
        Err(Error::Decompress(DecompressError::MemoryLimitExceeded { limit: 2 }))
    ));
    assert_eq!(decode_ascii_hex(b"414243>", Some(3)).unwrap(), b"ABC");
}
