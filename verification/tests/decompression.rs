use std::io::Write;

use flate2::write::ZlibEncoder;
use flate2::Compression;

use weezl::{encode::Encoder, BitOrder};

use lopdf::decode::{decode_ascii85, decompress_zlib, LimitedWriter, WriteErrorKind};
use lopdf::error::{DecompressError, Error};
use lopdf::object::{Dictionary, Object, Stream};

const MIB: usize = 1024 * 1024;

fn flate_bomb(target: usize) -> Vec<u8> {
    let mut encoder = ZlibEncoder::new(Vec::new(), Compression::best());
    let zeros = [0u8; 64 * 1024];
    let mut remaining = target;
    while remaining > 0 {
        let n = remaining.min(zeros.len());
        encoder.write_all(&zeros[..n]).unwrap();
        remaining -= n;
    }
    encoder.finish().unwrap()
}

fn zlib_compress(data: &[u8]) -> Vec<u8> {
    let mut encoder = ZlibEncoder::new(Vec::new(), Compression::best());
    encoder.write_all(data).unwrap();
    encoder.finish().unwrap()
}

fn flate_stream(content: Vec<u8>) -> Stream {
    let mut dict = Dictionary::new();
    dict.set(b"Filter".to_vec(), Object::Name(b"FlateDecode".to_vec()));
    Stream::new(dict, content)
}

fn assert_limit_err(result: Result<Vec<u8>, Error>, expected_limit: usize) {
    match result.map(|v| v.len()) {
        Err(Error::Decompress(DecompressError::MemoryLimitExceeded { limit })) => {
            assert_eq!(limit, expected_limit, "error reported the wrong limit");
        }
        Ok(n) => panic!("expected MemoryLimitExceeded, but decompressed {n} bytes"),
        Err(other) => panic!("expected MemoryLimitExceeded, got {other:?}"),
    }
}

#[test]
fn test_limited_writer_fills_to_limit_then_errors() {
    let mut writer = LimitedWriter::new(Vec::new(), 4);

    assert_eq!(writer.write(b"ab").unwrap(), 2);
    let err = writer.write(b"cdef").unwrap_err();
    assert_eq!(err, WriteErrorKind::WriteZero);

    assert_eq!(writer.into_inner(), b"abcd");
}

#[test]
fn limited_writer_refuses_once_full() {
    let mut writer = LimitedWriter::new(Vec::new(), 2);
    assert_eq!(writer.write(b"xy").unwrap(), 2);
    assert_eq!(writer.write(b"z").unwrap_err(), WriteErrorKind::WriteZero);
    assert_eq!(writer.write(b"").unwrap(), 0);
    assert_eq!(writer.into_inner(), b"xy");
}

#[test]
fn test_decode_ascii85() {
    let input = r#"9jqo^BlbD-BleB1DJ+*+F(f,q/0JhKF<GL>Cj@.4Gp$d7F!,L7@<6@)/0JDEF<G%<+EV:2F!,O<
            DJ+*.@<*K0@<6L(Df-\0Ec5e;DffZ(EZee.Bl.9pF"AGXBPCsi+DGm>@3BB/F*&OCAfu2/AKYi(
            DIb:@FD,*)+C]U=@3BN#EcYf8ATD3s@q?d$AftVqCh[NqF<G:8+EV:.+Cf>-FD5W8ARlolDIal(
            DId<j@<?3r@:F%a+D58'ATD4$Bl@l3De:,-DJs`8ARoFb/0JMK@qB4^F!,R<AKZ&-DfTqBG%G>u
            D.RTpAKYo'+CT/5+Cei#DII?(E,9)oF*2M7/c~>"#;
    let expected = "Man is distinguished, not only by his reason, but by this singular passion from other animals, which is a lust of the mind, that by a perseverance of delight in the continued and indefatigable generation of knowledge, exceeds the short vehemence of any carnal pleasure.";
    let output = decode_ascii85(input.as_bytes(), None).unwrap();
    println!("{}", String::from_utf8(output.clone()).unwrap());
    assert_eq!(&output, expected.as_bytes());
}

#[test]
fn test_decode_ascii85_overflow() {
    let input = b"uuuuu~>";
    let output = decode_ascii85(input, None);
    assert!(matches!(output, Err(Error::Decompress(DecompressError::Ascii85(_)))));
}

#[test]
fn ascii85_short_final_group() {
    // "Man " is 9jqo^; a final group of two digits gives one byte.
    assert_eq!(decode_ascii85(b"9jqo^~>", None).unwrap(), b"Man ");
    assert_eq!(decode_ascii85(b"9j~>", None).unwrap(), b"M");
    assert_eq!(decode_ascii85(b"z~>", None).unwrap(), vec![0u8; 4]);
}

#[test]
fn ascii85_stops_at_a_character_outside_its_alphabet() {
    assert_eq!(decode_ascii85(b"9j{o^~>", None).unwrap(), b"M");
    assert!(matches!(
        decode_ascii85(b"9jzo^~>", None),
        Err(Error::Decompress(DecompressError::Ascii85(_)))
    ));
}

#[test]
fn test_decompress_zlib_corrupt_checksum() {
    let original = b"BT /F1 12 Tf (Hello World) Tj ET";

    let mut encoder = ZlibEncoder::new(Vec::new(), Compression::default());
    encoder.write_all(original).unwrap();
    let mut compressed = encoder.finish().unwrap();

    let len = compressed.len();
    assert!(len >= 4);
    for byte in &mut compressed[len - 4..] {
        *byte ^= 0xFF;
    }

    let result = decompress_zlib(&compressed, None, None).unwrap();
    assert_eq!(result, original);
}

#[test]
fn zlib_round_trip_through_compress() {
    let original = b"q 1 0 0 1 0 0 cm Q\n".repeat(40);
    let mut stream = Stream::new(Dictionary::new(), original.clone());
    stream.compress().unwrap();
    assert_ne!(stream.content, original);
    assert!(stream.dict.has(b"Filter"));
    assert_eq!(stream.decompressed_content().unwrap(), original);
    stream.decompress().unwrap();
    assert_eq!(stream.content, original);
    assert!(!stream.dict.has(b"Filter"));
}

#[test]
fn test_uncompressed_stream_returns_raw_content() {
    let content = b"/FullPage Do
"
    .to_vec();
    let mut dict = Dictionary::new();
    dict.set(b"Length".to_vec(), Object::Integer(content.len() as i64));
    let stream = Stream::new(dict, content.clone());

    let result = stream
        .decompressed_content()
        .expect("should succeed for uncompressed stream");
    assert_eq!(result, content);
}

#[test]
fn test_uncompressed_stream_honors_limit() {
    let content = vec![0u8; 1024];
    let mut dict = Dictionary::new();
    dict.set(b"Length".to_vec(), Object::Integer(content.len() as i64));
    let stream = Stream::new(dict, content);

    assert!(matches!(
        stream.decompressed_content_with_limit(512),
        Err(Error::Decompress(DecompressError::MemoryLimitExceeded { limit: 512 }))
    ));
    assert!(stream.decompressed_content_with_limit(4096).is_ok());
}

#[test]
fn test_ascii85_honors_limit() {
    let mut input = vec![b'z'; 1024 * 1024];
    input.extend_from_slice(b"~>");

    let full = decode_ascii85(&input, None).unwrap();
    assert_eq!(full.len(), 4 * 1024 * 1024, "unbounded ASCII85 amplifies 4x");

    assert!(matches!(
        decode_ascii85(&input, Some(1024 * 1024)),
        Err(Error::Decompress(DecompressError::MemoryLimitExceeded { limit })) if limit == 1024 * 1024
    ));
}

#[test]
fn test_lzw_bomb_rejected_with_limit() {
    let plain = vec![0u8; 8 * 1024 * 1024];
    let compressed = Encoder::with_tiff_size_switch(BitOrder::Msb, 8).encode(&plain).unwrap();
    assert!(compressed.len() < 128 * 1024, "LZW bomb input should be tiny");

    let mut dict = Dictionary::new();
    dict.set(b"Filter".to_vec(), Object::Name(b"LZWDecode".to_vec()));
    let stream = Stream::new(dict, compressed);

    assert!(matches!(
        stream.decompressed_content_with_limit(1024 * 1024),
        Err(Error::Decompress(DecompressError::MemoryLimitExceeded { limit })) if limit == 1024 * 1024
    ));
    assert_eq!(stream.decompressed_content().unwrap().len(), 8 * 1024 * 1024);
}

#[test]
fn lzw_decodes_small_text() {
    let plain = b"TOBEORNOTTOBEORTOBEORNOT".to_vec();
    let compressed = Encoder::with_tiff_size_switch(BitOrder::Msb, 8).encode(&plain).unwrap();
    let mut dict = Dictionary::new();
    dict.set(b"Filter".to_vec(), Object::Name(b"LZWDecode".to_vec()));
    let stream = Stream::new(dict, compressed);
    assert_eq!(stream.decompressed_content().unwrap(), plain);
}

#[test]
fn single_filter_bomb_expands_without_limit() {
    let bomb = flate_stream(flate_bomb(32 * MIB));
    assert!(
        bomb.content.len() < 128 * 1024,
        "input should be tiny: {} bytes",
        bomb.content.len()
    );

    let output = bomb.decompressed_content().expect("decodes");
    assert_eq!(output.len(), 32 * MIB, "the full output was materialized with no cap");
}

#[test]
fn chained_filter_bomb_expands_without_limit() {
    let inner = flate_bomb(32 * MIB);
    let outer = zlib_compress(&inner);

    let mut dict = Dictionary::new();
    dict.set(
        b"Filter".to_vec(),
        Object::Array(vec![Object::Name(b"FlateDecode".to_vec()), Object::Name(b"FlateDecode".to_vec())]),
    );
    let stream = Stream::new(dict, outer);

    assert!(
        stream.content.len() < 8 * 1024,
        "input should be under 8 KiB: {} bytes",
        stream.content.len()
    );

    let output = stream.decompressed_content().expect("decodes");
    assert_eq!(output.len(), 32 * MIB, "nested filters expanded fully, no cap");
}

#[test]
fn flate_bomb_rejected_with_limit() {
    let bomb = flate_stream(flate_bomb(32 * MIB));
    assert_limit_err(bomb.decompressed_content_with_limit(4 * MIB), 4 * MIB);
}

#[test]
fn legit_stream_decompresses_under_limit() {
    let payload: Vec<u8> = (0..64 * 1024).map(|i| (i % 251) as u8).collect();
    let stream = flate_stream(zlib_compress(&payload));

    let output = stream
        .decompressed_content_with_limit(MIB)
        .expect("stream under the limit should decode");
    assert_eq!(output, payload);
}

#[test]
fn custom_limit_is_enforced() {
    let stream = flate_stream(flate_bomb(2 * MIB));

    assert_limit_err(stream.decompressed_content_with_limit(MIB), MIB);

    let output = stream
        .decompressed_content_with_limit(4 * MIB)
        .expect("2 MiB output fits under a 4 MiB limit");
    assert_eq!(output.len(), 2 * MIB);
}

#[test]
fn chained_flate_filters_are_bounded() {
    let inner = flate_bomb(32 * MIB);
    let outer = zlib_compress(&inner);

    let mut dict = Dictionary::new();
    dict.set(
        b"Filter".to_vec(),
        Object::Array(vec![Object::Name(b"FlateDecode".to_vec()), Object::Name(b"FlateDecode".to_vec())]),
    );
    let stream = Stream::new(dict, outer);
    assert_limit_err(stream.decompressed_content_with_limit(4 * MIB), 4 * MIB);
}

#[test]
fn unknown_filter_is_unimplemented() {
    let mut dict = Dictionary::new();
    dict.set(b"Filter".to_vec(), Object::Name(b"RunLengthDecode".to_vec()));
    let stream = Stream::new(dict, vec![1, 2, 3]);
    assert!(matches!(stream.decompressed_content(), Err(Error::Unimplemented(_))));
}

#[test]
fn lzw_honors_late_code_widening() {
    let plain = b"ABABABABABABABABABABABABABABABABABABABAB repeated text for longer codes".repeat(8);
    let compressed = Encoder::new(BitOrder::Msb, 8).encode(&plain).unwrap();
    let mut params = Dictionary::new();
    params.set(b"EarlyChange".to_vec(), Object::Integer(0));
    let mut dict = Dictionary::new();
    dict.set(b"Filter".to_vec(), Object::Name(b"LZWDecode".to_vec()));
    dict.set(b"DecodeParms".to_vec(), Object::Dictionary(params));
    let stream = Stream::new(dict, compressed);
    assert_eq!(stream.decompressed_content().unwrap(), plain);
    assert!(matches!(
        stream.decompressed_content_with_limit(10),
        Err(Error::Decompress(DecompressError::MemoryLimitExceeded { limit: 10 }))
    ));
}

#[test]
fn lzw_output_of_exactly_the_limit_passes() {
    let plain = b"TOBEORNOTTOBEORTOBEORNOT".to_vec();
    let compressed = Encoder::with_tiff_size_switch(BitOrder::Msb, 8).encode(&plain).unwrap();
    let mut dict = Dictionary::new();
    dict.set(b"Filter".to_vec(), Object::Name(b"LZWDecode".to_vec()));
    let stream = Stream::new(dict, compressed);
    assert_eq!(stream.decompressed_content_with_limit(plain.len()).unwrap(), plain);
    assert!(stream.decompressed_content_with_limit(plain.len() - 1).is_err());
}
