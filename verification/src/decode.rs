//! Decoding the filters of streams, with a bound on the size of what they
//! give.

use vstd::prelude::*;
use crate::error::{Error, DecompressError};
use crate::object::{Object, PdfValue, Dictionary, Stream, entries_get, entries_set, entries_remove, filter_names};
use crate::names::{brotli_decode_bytes, brotli_decode_key, ascii_hex_decode_bytes, ascii_hex_decode_key};
use crate::names::{length_bytes, decode_parms_bytes, decode_parms_key, filter_bytes, flate_decode_bytes, flate_decode_key,
    lzw_decode_bytes, lzw_decode_key, filter_key, ascii85_decode_bytes, ascii85_decode_key, early_change_key, early_change_bytes, predictor_bytes, predictor_key, columns_bytes, columns_key, colors_bytes, colors_key,
    bits_per_component_bytes, bits_per_component_key};
use crate::filters::png::{decode_frame, decoded_frame};

verus! {

/// Why a write was refused.
#[derive(Debug, Clone, Copy, PartialEq, Eq, Structural)]
pub enum WriteErrorKind {
    /// Nothing more may be written.
    WriteZero,
}

/// A sink that appends to a byte vector but refuses to grow it past `limit`
/// bytes. On a write that would cross the limit it fills up to exactly
/// `limit` bytes and then refuses, so the caller can tell the overflow by
/// the length.
pub struct LimitedWriter {
    inner: Vec<u8>,
    limit: usize,
}

impl LimitedWriter {
    pub fn new(inner: Vec<u8>, limit: usize) -> (r: LimitedWriter)
        ensures
            r.contents() == inner@,
            r.limit() == limit,
    {
        LimitedWriter { inner, limit }
    }

    /// The bytes written so far, with those the sink started with.
    pub closed spec fn contents(&self) -> Seq<u8> {
        self.inner@
    }

    pub closed spec fn limit(&self) -> usize {
        self.limit
    }

    /// Appends `buf`, or as much of it as fits under the limit and then
    /// refuses.
    pub fn write(&mut self, buf: &[u8]) -> (r: Result<usize, WriteErrorKind>)
        ensures
            final(self).limit() == old(self).limit(),
            ({
                let room = if old(self).contents().len() < old(self).limit() {
                    old(self).limit() - old(self).contents().len()
                } else {
                    0
                };
                if buf@.len() > room {
                    &&& r == Err::<usize, WriteErrorKind>(WriteErrorKind::WriteZero)
                    &&& final(self).contents() == old(self).contents() + buf@.subrange(0, room)
                } else {
                    &&& r == Ok::<usize, WriteErrorKind>(buf@.len() as usize)
                    &&& final(self).contents() == old(self).contents() + buf@
                }
            }),
    {
        let remaining = self.limit.saturating_sub(self.inner.len());
        let n = buf.len();
        let take = if n > remaining { remaining } else { n };
        let ghost start = self.inner@;
        let mut i: usize = 0;
        while i < take
            invariant
                take <= buf@.len(),
                i <= take,
                self.inner@ == start + buf@.subrange(0, i as int),
                self.limit == old(self).limit,
            decreases take - i,
        {
            self.inner.push(buf[i]);
            i = i + 1;
            assert(self.inner@ =~= start + buf@.subrange(0, i as int));
        }
        if n > remaining {
            return Err(WriteErrorKind::WriteZero);
        }
        assert(buf@.subrange(0, n as int) =~= buf@);
        Ok(n)
    }

    /// Gives back the vector with what was written.
    pub fn into_inner(self) -> (r: Vec<u8>)
        ensures
            r@ == self.contents(),
    {
        self.inner
    }
}

/// `std::io::Error::from(std::io::ErrorKind::WriteZero)`: the error of a
/// sink that takes no more bytes.
#[verifier::external_body]
fn write_zero_error() -> (r: std::io::Error)
{
    std::io::Error::from(std::io::ErrorKind::WriteZero)
}

impl std::io::Write for LimitedWriter {
    fn write(&mut self, buf: &[u8]) -> std::io::Result<usize> {
        match LimitedWriter::write(self, buf) {
            Ok(n) => Ok(n),
            Err(_) => Err(write_zero_error()),
        }
    }

    fn flush(&mut self) -> std::io::Result<()> {
        Ok(())
    }
}

/// The error for output that would exceed `max` bytes.
pub open spec fn limit_error(max: usize) -> Error {
    Error::Decompress(DecompressError::MemoryLimitExceeded { limit: max })
}

/// ASCII white-space as Rust's `u8::is_ascii_whitespace` has it: space, tab,
/// line feed, form feed and carriage return.
pub open spec fn is_ascii_white(c: u8) -> bool {
    c == 32 || c == 9 || c == 10 || c == 12 || c == 13
}

/// The input without its end-of-data marker `~>`, where it ends with one.
pub open spec fn ascii85_body(input: Seq<u8>) -> Seq<u8> {
    if input.len() >= 2 && input[input.len() - 2] == 126 && input[input.len() - 1] == 62 {
        input.subrange(0, input.len() - 2)
    } else {
        input
    }
}

/// The four bytes of `b`, most significant first.
pub open spec fn be_bytes(b: u32) -> Seq<u8> {
    seq![(b / 0x1000000) as u8, ((b / 0x10000) % 256) as u8, ((b / 0x100) % 256) as u8, (b % 256) as u8]
}

/// One more base-85 digit `d` of a group: `buffer * 85 + d`, where the
/// product fits in 32 bits, the sum wrapping around at 2^32.
pub open spec fn push_digit(buffer: u32, d: int) -> u32 {
    let v = buffer * 85 + d;
    if v > u32::MAX { (v - 0x1_0000_0000) as u32 } else { v as u32 }
}

/// A group of `5 - k` digits padded with `k` digits of value 84 (`u`), or
/// nothing where a product overflows 32 bits.
pub open spec fn ascii85_pad(buffer: u32, k: nat) -> Option<u32>
    decreases k,
{
    if k == 0 {
        Some(buffer)
    } else if buffer * 85 > u32::MAX {
        None
    } else {
        ascii85_pad(push_digit(buffer, 84), (k - 1) as nat)
    }
}

pub open spec fn ascii85_overflow() -> Error {
    Error::Decompress(DecompressError::Ascii85("multiplication overflow"))
}

pub open spec fn ascii85_z_error() -> Error {
    Error::Decompress(DecompressError::Ascii85("z character is not allowed in the middle of a group"))
}

/// The output once the input ends with `count` digits of a group in
/// `buffer`: the group padded, of which `count - 1` bytes are kept.
pub open spec fn ascii85_finish(out: Seq<u8>, buffer: u32, count: nat) -> Result<Seq<u8>, Error> {
    if count == 0 {
        Ok(out)
    } else {
        match ascii85_pad(buffer, (5 - count) as nat) {
            Some(b) => Ok(out + be_bytes(b).subrange(0, count - 1)),
            None => Err(ascii85_overflow()),
        }
    }
}

/// ASCII85 decoding of `body` from position `i` on, with `out` decoded so far
/// and `count` digits of a group in `buffer`. Before each character the
/// output is held to `limit`; `z` stands for four zero bytes outside a group;
/// white-space is skipped; any other character outside `!`..=`u` ends the
/// data.
pub open spec fn ascii85_run(body: Seq<u8>, i: int, out: Seq<u8>, buffer: u32, count: nat, limit: Option<usize>)
    -> Result<Seq<u8>, Error>
    decreases body.len() - i,
{
    if !(0 <= i < body.len()) {
        ascii85_finish(out, buffer, count)
    } else if limit matches Some(max) && out.len() > max {
        Err(limit_error(limit->0))
    } else {
        let ch = body[i];
        if ch == 122 {
            if count != 0 {
                Err(ascii85_z_error())
            } else {
                ascii85_run(body, i + 1, out + seq![0u8, 0u8, 0u8, 0u8], buffer, count, limit)
            }
        } else if is_ascii_white(ch) {
            ascii85_run(body, i + 1, out, buffer, count, limit)
        } else if !(33 <= ch <= 117) {
            ascii85_finish(out, buffer, count)
        } else if buffer * 85 > u32::MAX {
            Err(ascii85_overflow())
        } else {
            let b = push_digit(buffer, ch - 33);
            if count + 1 == 5 {
                ascii85_run(body, i + 1, out + be_bytes(b), 0, 0, limit)
            } else {
                ascii85_run(body, i + 1, out, b, count + 1, limit)
            }
        }
    }
}

/// What ASCII85 decoding of `input` gives under `limit`.
pub open spec fn ascii85_decoded(input: Seq<u8>, limit: Option<usize>) -> Result<Seq<u8>, Error> {
    ascii85_run(ascii85_body(input), 0, Seq::empty(), 0, 0, limit)
}

fn push_be_bytes(out: &mut Vec<u8>, b: u32, n: usize)
    requires
        n <= 4,
    ensures
        final(out)@ == old(out)@ + be_bytes(b).subrange(0, n as int),
{
    let bytes: [u8; 4] = [(b / 0x1000000) as u8, ((b / 0x10000) % 256) as u8, ((b / 0x100) % 256) as u8,
        (b % 256) as u8];
    assert(bytes@ =~= be_bytes(b));
    let ghost start = out@;
    let mut i: usize = 0;
    while i < n
        invariant
            n <= 4,
            i <= n,
            bytes@ == be_bytes(b),
            out@ == start + be_bytes(b).subrange(0, i as int),
        decreases n - i,
    {
        out.push(bytes[i]);
        i = i + 1;
        assert(out@ =~= start + be_bytes(b).subrange(0, i as int));
    }
}

/// Decodes ASCII85 data. The input may end with the marker `~>`. When
/// `limit` is `Some(max)`, decoding stops with an error once the output has
/// grown past `max` bytes.
pub fn decode_ascii85(input: &[u8], limit: Option<usize>) -> (r: Result<Vec<u8>, Error>)
    ensures
        match ascii85_decoded(input@, limit) {
            Ok(bytes) => r matches Ok(v) && v@ == bytes,
            Err(e) => r matches Err(e2) && e2 == e,
        },
{
    let len = input.len();
    let end = if len >= 2 && input[len - 2] == 126 && input[len - 1] == 62 { len - 2 } else { len };
    let ghost body = ascii85_body(input@);
    assert(body =~= input@.subrange(0, end as int));
    let mut output: Vec<u8> = Vec::new();
    let mut buffer: u32 = 0;
    let mut count: usize = 0;
    let mut i: usize = 0;
    let mut stop = false;
    while i < end && !stop
        invariant
            end <= input@.len(),
            body == input@.subrange(0, end as int),
            i <= end,
            count < 5,
            stop ==> ascii85_decoded(input@, limit) == ascii85_finish(output@, buffer, count as nat),
            !stop ==> ascii85_decoded(input@, limit) == ascii85_run(body, i as int, output@, buffer, count as nat, limit),
        decreases end - i, if stop { 0nat } else { 1nat },
    {
        let ch = input[i];
        assert(ch == body[i as int]);
        if let Some(max) = limit {
            if output.len() > max {
                return Err(Error::Decompress(DecompressError::MemoryLimitExceeded { limit: max }));
            }
        }
        if ch == 122 {
            if count != 0 {
                return Err(Error::Decompress(DecompressError::Ascii85("z character is not allowed in the middle of a group")));
            }
            let ghost before = output@;
            output.push(0);
            output.push(0);
            output.push(0);
            output.push(0);
            assert(output@ =~= before + seq![0u8, 0u8, 0u8, 0u8]);
            i = i + 1;
        } else if ch == 32 || ch == 9 || ch == 10 || ch == 12 || ch == 13 {
            i = i + 1;
        } else if !(33 <= ch && ch <= 117) {
            stop = true;
        } else {
            match buffer.checked_mul(85) {
                None => {
                    return Err(Error::Decompress(DecompressError::Ascii85("multiplication overflow")));
                },
                Some(p) => {
                    buffer = p.wrapping_add((ch - 33) as u32);
                },
            }
            count = count + 1;
            i = i + 1;
            if count == 5 {
                push_be_bytes(&mut output, buffer, 4);
                assert(be_bytes(buffer).subrange(0, 4) =~= be_bytes(buffer));
                buffer = 0;
                count = 0;
            }
        }
    }
    assert(ascii85_decoded(input@, limit) == ascii85_finish(output@, buffer, count as nat));
    if count > 0 {
        let ghost b0 = buffer;
        let mut k: usize = count;
        while k < 5
            invariant
                1 <= count <= k <= 5,
                ascii85_pad(b0, (5 - count) as nat) == ascii85_pad(buffer, (5 - k) as nat),
                ascii85_decoded(input@, limit) == ascii85_finish(output@, b0, count as nat),
            decreases 5 - k,
        {
            match buffer.checked_mul(85) {
                None => {
                    assert(ascii85_pad(buffer, (5 - k) as nat) is None);
                    return Err(Error::Decompress(DecompressError::Ascii85("multiplication overflow")));
                },
                Some(p) => {
                    buffer = p.wrapping_add(84);
                },
            }
            k = k + 1;
        }
        push_be_bytes(&mut output, buffer, count - 1);
    }
    Ok(output)
}

/// An integer entry of decoding parameters, or `default` where the entry is
/// missing or no integer.
pub open spec fn int_param(params: Seq<(Seq<u8>, Object)>, key: Seq<u8>, default: i64) -> i64 {
    match entries_get(params, key) {
        Some(Object::Integer(v)) => v,
        _ => default,
    }
}

/// `v`, but at least `low`, as a `usize`.
pub open spec fn at_least(v: i64, low: i64) -> usize {
    (if v < low { low } else { v }) as usize
}

/// Whether the parameters ask for a PNG predictor (10 to 15).
pub open spec fn uses_png_predictor(params: Seq<(Seq<u8>, Object)>) -> bool {
    10 <= int_param(params, predictor_bytes(), 1) <= 15
}

/// Pixels per row: /Columns, at least 1.
pub open spec fn pixels_per_row(params: Seq<(Seq<u8>, Object)>) -> usize {
    at_least(int_param(params, columns_bytes(), 1), 1)
}

/// Bits per pixel: /Colors (at least 1) times /BitsPerComponent (at least 8).
pub open spec fn bits_per_pixel(params: Seq<(Seq<u8>, Object)>) -> int {
    at_least(int_param(params, colors_bytes(), 1), 1) * at_least(int_param(params, bits_per_component_bytes(), 8), 8)
}

/// Bytes per pixel of the predictor.
pub open spec fn bytes_per_pixel(params: Seq<(Seq<u8>, Object)>) -> int {
    bits_per_pixel(params) / 8
}

/// Whether the sizes of a predictor's rows fit in a `usize`, and a row is no
/// shorter than a pixel.
pub open spec fn predictor_fits(params: Option<Seq<(Seq<u8>, Object)>>) -> bool {
    match params {
        Some(p) => uses_png_predictor(p) ==> {
            &&& bits_per_pixel(p) <= usize::MAX
            &&& bytes_per_pixel(p) * pixels_per_row(p) <= usize::MAX
            &&& (pixels_per_row(p) > 0 || bytes_per_pixel(p) == 0)
        },
        None => true,
    }
}

/// `data` with the predictor of `params` undone.
pub open spec fn predicted(data: Seq<u8>, params: Option<Seq<(Seq<u8>, Object)>>) -> Result<Seq<u8>, Error> {
    match params {
        Some(p) => if uses_png_predictor(p) {
            match decoded_frame(data, bytes_per_pixel(p), pixels_per_row(p) as int) {
                Ok(v) => Ok(v),
                Err(_) => Err(Error::Decompress(DecompressError::Predictor)),
            }
        } else {
            Ok(data)
        },
        None => Ok(data),
    }
}

/// An integer entry of `params`, or `default`.
fn int_entry(params: &Dictionary, key: &[u8], default: i64) -> (r: i64)
    ensures
        r == int_param(params@, key@, default),
{
    match params.get(key) {
        Ok(o) => match o.as_i64() {
            Ok(v) => v,
            Err(_) => default,
        },
        Err(_) => default,
    }
}

/// Undoes the predictor that `params` names, if any.
pub fn decompress_predictor(data: Vec<u8>, params: Option<&Dictionary>) -> (r: Result<Vec<u8>, Error>)
    requires
        predictor_fits(match params { Some(p) => Some(p@), None => None }),
    ensures
        match predicted(data@, match params { Some(p) => Some(p@), None => None }) {
            Ok(v) => r matches Ok(w) && w@ == v,
            Err(e) => r matches Err(e2) && e2 == e,
        },
{
    match params {
        Some(p) => {
            let predictor = int_entry(p, predictor_key().as_slice(), 1);
            if 10 <= predictor && predictor <= 15 {
                let columns = int_entry(p, columns_key().as_slice(), 1);
                let colors = int_entry(p, colors_key().as_slice(), 1);
                let bits = int_entry(p, bits_per_component_key().as_slice(), 8);
                let ppr = (if columns < 1 { 1 } else { columns }) as usize;
                let c = (if colors < 1 { 1 } else { colors }) as usize;
                let b = (if bits < 8 { 8 } else { bits }) as usize;
                let bpp = c * b / 8;
                match decode_frame(data.as_slice(), bpp, ppr) {
                    Ok(v) => Ok(v),
                    Err(_) => Err(Error::Decompress(DecompressError::Predictor)),
                }
            } else {
                Ok(data)
            }
        },
        None => Ok(data),
    }
}

/// What reading a zlib stream decoder over `input` to its end gives, taking
/// at most `cap` bytes: the bytes read, and whether the read ended without an
/// error.
pub uninterp spec fn zlib_read(input: Seq<u8>, cap: u64) -> (Seq<u8>, bool);

/// What reading a raw deflate decoder over `input` to its end gives, taking
/// at most `cap` bytes: the bytes read, and whether the read ended without an
/// error.
pub uninterp spec fn deflate_read(input: Seq<u8>, cap: u64) -> (Seq<u8>, bool);

/// Reads `flate2::read::ZlibDecoder` over `input` to its end, through
/// `std::io::Read::take` with `cap`. The result is named; `take` gives at
/// most `cap` bytes.
#[verifier::external_body]
fn read_zlib(input: &[u8], cap: u64) -> (r: (Vec<u8>, bool))
    ensures
        (r.0@, r.1) == zlib_read(input@, cap),
        r.0@.len() <= cap,
{
    let mut out = Vec::new();
    let done = std::io::Read::read_to_end(&mut std::io::Read::take(flate2::read::ZlibDecoder::new(input), cap), &mut out);
    (out, done.is_ok())
}

/// Reads `flate2::read::DeflateDecoder` over `input` to its end, through
/// `std::io::Read::take` with `cap`. The result is named; `take` gives at
/// most `cap` bytes.
#[verifier::external_body]
fn read_deflate(input: &[u8], cap: u64) -> (r: (Vec<u8>, bool))
    ensures
        (r.0@, r.1) == deflate_read(input@, cap),
        r.0@.len() <= cap,
{
    let mut out = Vec::new();
    let done = std::io::Read::read_to_end(&mut std::io::Read::take(flate2::read::DeflateDecoder::new(input), cap), &mut out);
    (out, done.is_ok())
}

/// How many bytes a decoder may give under `limit`: one more than the limit,
/// so that going over it shows, or all there are.
pub open spec fn read_cap(limit: Option<usize>) -> u64 {
    match limit {
        Some(max) => if max as int + 1 > u64::MAX { u64::MAX } else { (max + 1) as u64 },
        None => u64::MAX,
    }
}

/// The bytes that a zlib stream gives. Where zlib decoding fails before it
/// gives anything, the data after the two-byte header is read again as raw
/// deflate data, which has no checksum.
pub open spec fn zlib_decoded(input: Seq<u8>, limit: Option<usize>) -> Seq<u8> {
    if input.len() == 0 {
        Seq::empty()
    } else {
        let (out, ok) = zlib_read(input, read_cap(limit));
        if !ok && out.len() == 0 && input.len() > 2 {
            deflate_read(input.subrange(2, input.len() as int), read_cap(limit)).0
        } else {
            out
        }
    }
}

/// The output of the Flate filter, its predictor undone.
pub open spec fn flate_decoded(input: Seq<u8>, params: Option<Seq<(Seq<u8>, Object)>>, limit: Option<usize>)
    -> Result<Seq<u8>, Error>
{
    let out = zlib_decoded(input, limit);
    if limit matches Some(max) && out.len() > max {
        Err(limit_error(limit->0))
    } else {
        predicted(out, params)
    }
}

fn decoder_cap(limit: Option<usize>) -> (r: u64)
    ensures
        r == read_cap(limit),
{
    match limit {
        Some(max) => (max as u64).saturating_add(1),
        None => u64::MAX,
    }
}

/// Decodes Flate (zlib) data, then undoes the predictor that `params` names.
pub fn decompress_zlib(input: &[u8], params: Option<&Dictionary>, limit: Option<usize>) -> (r: Result<Vec<u8>, Error>)
    requires
        predictor_fits(match params { Some(p) => Some(p@), None => None }),
    ensures
        match flate_decoded(input@, match params { Some(p) => Some(p@), None => None }, limit) {
            Ok(v) => r matches Ok(w) && w@ == v,
            Err(e) => r matches Err(e2) && e2 == e,
        },
{
    let cap = decoder_cap(limit);
    let mut output: Vec<u8> = Vec::new();
    if input.len() > 0 {
        let (out, ok) = read_zlib(input, cap);
        output = out;
        if !ok && output.len() == 0 && input.len() > 2 {
            let (raw, _) = read_deflate(&input[2..input.len()], cap);
            output = raw;
        }
    }
    if let Some(max) = limit {
        if output.len() > max {
            return Err(Error::Decompress(DecompressError::MemoryLimitExceeded { limit: max }));
        }
    }
    decompress_predictor(output, params)
}

/// What `weezl`'s stream decoder writes when it decodes all of `input`
/// (`Decoder::into_stream(sink).decode_all(input)`), for 8-bit symbols, most
/// significant bit first, widening its codes one code early
/// (`early_change`, TIFF's and PDF's default) or where the original algorithm
/// does, into a sink that takes at most `cap` bytes and then refuses. The
/// decoder stops at its end marker, at an invalid code, at the end of the
/// input or when the sink refuses; what was written stays.
pub uninterp spec fn lzw_read(input: Seq<u8>, early_change: bool, cap: usize) -> Seq<u8>;

/// Decodes `input` with `weezl::decode::Decoder::with_tiff_size_switch(
/// BitOrder::Msb, 8)` (the size 8 is within the 0 to 12 it accepts) through
/// `into_stream(..).decode_all(..)` into a sink of at most `cap` bytes. What
/// it writes is named; the sink holds it to `cap` bytes.
#[verifier::external_body]
fn lzw_read_early_change(input: &[u8], cap: usize) -> (r: Vec<u8>)
    ensures
        r@ == lzw_read(input@, true, cap),
        r@.len() <= cap,
{
    let mut sink = LimitedWriter::new(Vec::new(), cap);
    let _ = weezl::decode::Decoder::with_tiff_size_switch(weezl::BitOrder::Msb, 8).into_stream(&mut sink).decode_all(input);
    sink.into_inner()
}

/// Decodes `input` with `weezl::decode::Decoder::new(BitOrder::Msb, 8)`
/// through `into_stream(..).decode_all(..)` into a sink of at most `cap`
/// bytes. What it writes is named; the sink holds it to `cap` bytes.
#[verifier::external_body]
fn lzw_read_late_change(input: &[u8], cap: usize) -> (r: Vec<u8>)
    ensures
        r@ == lzw_read(input@, false, cap),
        r@.len() <= cap,
{
    let mut sink = LimitedWriter::new(Vec::new(), cap);
    let _ = weezl::decode::Decoder::new(weezl::BitOrder::Msb, 8).into_stream(&mut sink).decode_all(input);
    sink.into_inner()
}

/// How many bytes the LZW sink takes under `limit`.
pub open spec fn sink_cap(limit: Option<usize>) -> usize {
    match limit {
        Some(max) => if max == usize::MAX { usize::MAX } else { (max + 1) as usize },
        None => usize::MAX,
    }
}

/// Decodes all of `input` with an LZW decoder into a sink that takes at most
/// one byte more than `limit`, so that going over the limit shows without the
/// whole output being kept. What was decoded until the decoder stopped is
/// kept.
pub fn decompress_lzw_loop(input: &[u8], early_change: bool, limit: Option<usize>) -> (r: Vec<u8>)
    ensures
        r@ == lzw_read(input@, early_change, sink_cap(limit)),
{
    let cap = match limit {
        Some(max) => max.saturating_add(1),
        None => usize::MAX,
    };
    if early_change {
        lzw_read_early_change(input, cap)
    } else {
        lzw_read_late_change(input, cap)
    }
}

/// Whether LZW codes widen one code early: /EarlyChange other than 0, which
/// is the default.
pub open spec fn lzw_early_change(params: Option<Seq<(Seq<u8>, Object)>>) -> bool {
    match params {
        Some(p) => int_param(p, early_change_bytes(), 1) != 0,
        None => true,
    }
}

/// What the LZW filter gives when the decoder gives `raw`: an error where
/// `raw` is over the limit, else `raw` with its predictor undone.
pub open spec fn lzw_stage(raw: Seq<u8>, params: Option<Seq<(Seq<u8>, Object)>>, limit: Option<usize>)
    -> Result<Seq<u8>, Error>
{
    if limit matches Some(max) && raw.len() > max {
        Err(limit_error(limit->0))
    } else {
        predicted(raw, params)
    }
}

/// The output of the LZW filter.
pub open spec fn lzw_decoded(input: Seq<u8>, params: Option<Seq<(Seq<u8>, Object)>>, limit: Option<usize>)
    -> Result<Seq<u8>, Error>
{
    lzw_stage(lzw_read(input, lzw_early_change(params), sink_cap(limit)), params, limit)
}

/// Decodes LZW data, then undoes the predictor that `params` names.
pub fn decompress_lzw(input: &[u8], params: Option<&Dictionary>, limit: Option<usize>) -> (r: Result<Vec<u8>, Error>)
    requires
        predictor_fits(match params { Some(p) => Some(p@), None => None }),
    ensures
        match lzw_decoded(input@, match params { Some(p) => Some(p@), None => None }, limit) {
            Ok(v) => r matches Ok(w) && w@ == v,
            Err(e) => r matches Err(e2) && e2 == e,
        },
{
    let early_change = match params {
        Some(p) => int_entry(p, early_change_key().as_slice(), 1) != 0,
        None => true,
    };
    let output = decompress_lzw_loop(input, early_change, limit);
    if let Some(max) = limit {
        if output.len() > max {
            return Err(Error::Decompress(DecompressError::MemoryLimitExceeded { limit: max }));
        }
    }
    decompress_predictor(output, params)
}

/// What reading a Brotli decoder over `input` to its end gives, taking at
/// most `cap` bytes: the bytes read, and whether the read ended without an
/// error.
pub uninterp spec fn brotli_read(input: Seq<u8>, cap: u64) -> (Seq<u8>, bool);

/// Reads `brotli_decompressor::Decompressor` (with a 4096-byte buffer) over
/// `input` to its end, through `std::io::Read::take` with `cap`. The result
/// is named; `take` gives at most `cap` bytes.
#[verifier::external_body]
fn read_brotli(input: &[u8], cap: u64) -> (r: (Vec<u8>, bool))
    ensures
        (r.0@, r.1) == brotli_read(input@, cap),
        r.0@.len() <= cap,
{
    let mut out = Vec::new();
    let done = std::io::Read::read_to_end(&mut std::io::Read::take(brotli_decompressor::Decompressor::new(input, 4096), cap), &mut out);
    (out, done.is_ok())
}

/// The output of the Brotli filter, which takes no parameters: an error
/// where it is over the limit or the data does not decode to its end.
pub open spec fn brotli_decoded(input: Seq<u8>, limit: Option<usize>) -> Result<Seq<u8>, Error> {
    let (out, ok) = brotli_read(input, read_cap(limit));
    if limit matches Some(max) && out.len() > max {
        Err(limit_error(limit->0))
    } else if !ok {
        Err(Error::Decompress(DecompressError::Brotli))
    } else {
        Ok(out)
    }
}

/// Decodes Brotli data. Decoding parameters do not apply to it.
pub fn decompress_brotli(input: &[u8], limit: Option<usize>) -> (r: Result<Vec<u8>, Error>)
    ensures
        match brotli_decoded(input@, limit) {
            Ok(v) => r matches Ok(w) && w@ == v,
            Err(e) => r matches Err(e2) && e2 == e,
        },
{
    let (output, ok) = read_brotli(input, decoder_cap(limit));
    if let Some(max) = limit {
        if output.len() > max {
            return Err(Error::Decompress(DecompressError::MemoryLimitExceeded { limit: max }));
        }
    }
    if !ok {
        return Err(Error::Decompress(DecompressError::Brotli));
    }
    Ok(output)
}

/// The value of a hexadecimal digit.
pub open spec fn hex_value(c: u8) -> Option<u8> {
    if 48 <= c <= 57 {
        Some((c - 48) as u8)
    } else if 65 <= c <= 70 {
        Some((c - 55) as u8)
    } else if 97 <= c <= 102 {
        Some((c - 87) as u8)
    } else {
        None
    }
}

/// The values of the hexadecimal digits of `input` from `i` on, up to its
/// end marker `>` or its end, white-space passed over; nothing where another
/// character comes first.
pub open spec fn hex_digits(input: Seq<u8>, i: int) -> Option<Seq<u8>>
    decreases input.len() - i,
{
    if i < 0 || i >= input.len() || input[i] == 62 {
        Some(Seq::empty())
    } else if is_ascii_white(input[i]) {
        hex_digits(input, i + 1)
    } else {
        match (hex_value(input[i]), hex_digits(input, i + 1)) {
            (Some(v), Some(rest)) => Some(seq![v] + rest),
            _ => None,
        }
    }
}

/// The bytes that pairs of digits give, a last digit alone standing for its
/// value times 16.
pub open spec fn hex_pairs(d: Seq<u8>) -> Seq<u8> {
    Seq::new(((d.len() + 1) / 2) as nat, |k: int| (d[2 * k] * 16 + if 2 * k + 1 < d.len() { d[2 * k + 1] as int } else { 0 }) as u8)
}

/// The output of the ASCIIHex filter.
pub open spec fn ascii_hex_decoded(input: Seq<u8>, limit: Option<usize>) -> Result<Seq<u8>, Error> {
    match hex_digits(input, 0) {
        None => Err(Error::Decompress(DecompressError::AsciiHex)),
        Some(d) => if limit matches Some(max) && hex_pairs(d).len() > max {
            Err(limit_error(limit->0))
        } else {
            Ok(hex_pairs(d))
        },
    }
}

fn hex_digit(c: u8) -> (r: Option<u8>)
    ensures
        r == hex_value(c),
        r matches Some(v) ==> v < 16,
{
    if 48 <= c && c <= 57 {
        Some(c - 48)
    } else if 65 <= c && c <= 70 {
        Some(c - 55)
    } else if 97 <= c && c <= 102 {
        Some(c - 87)
    } else {
        None
    }
}

/// Decodes ASCIIHex data: pairs of hexadecimal digits up to the end marker
/// `>`, white-space passed over, a last digit alone standing for its value
/// times 16.
pub fn decode_ascii_hex(input: &[u8], limit: Option<usize>) -> (r: Result<Vec<u8>, Error>)
    ensures
        match ascii_hex_decoded(input@, limit) {
            Ok(v) => r matches Ok(w) && w@ == v,
            Err(e) => r matches Err(e2) && e2 == e,
        },
{
    let mut digits: Vec<u8> = Vec::new();
    let n = input.len();
    let mut i: usize = 0;
    while i < n && input[i] != 62
        invariant
            i <= n,
            n == input@.len(),
            forall|j: int| 0 <= j < digits@.len() ==> digits@[j] < 16,
            hex_digits(input@, 0) == match hex_digits(input@, i as int) {
                Some(rest) => Some(digits@ + rest),
                None => None::<Seq<u8>>,
            },
        decreases n - i,
    {
        let c = input[i];
        if c == 32 || c == 9 || c == 10 || c == 12 || c == 13 {
            i = i + 1;
        } else {
            match hex_digit(c) {
                Some(v) => {
                    proof {
                        match hex_digits(input@, i + 1) {
                            Some(rest) => {
                                assert(digits@ + (seq![v] + rest) =~= digits@.push(v) + rest);
                            },
                            None => {},
                        }
                    }
                    digits.push(v);
                    i = i + 1;
                },
                None => {
                    return Err(Error::Decompress(DecompressError::AsciiHex));
                },
            }
        }
    }
    assert(digits@ + Seq::<u8>::empty() =~= digits@);
    let ghost d = digits@;
    let count = digits.len() / 2 + digits.len() % 2;
    if let Some(max) = limit {
        if count > max {
            return Err(Error::Decompress(DecompressError::MemoryLimitExceeded { limit: max }));
        }
    }
    let mut out: Vec<u8> = Vec::new();
    let mut k: usize = 0;
    while k < count
        invariant
            d == digits@,
            forall|j: int| 0 <= j < d.len() ==> d[j] < 16,
            count == (d.len() + 1) / 2,
            k <= count,
            out@ == hex_pairs(d).subrange(0, k as int),
        decreases count - k,
    {
        assert(2 * k < d.len()) by (nonlinear_arith)
            requires
                k < count,
                count == (d.len() + 1) / 2,
        {}
        assert(d.len() == digits.len());
        let hi = digits[2 * k];
        let lo = if 2 * k + 1 < digits.len() { digits[2 * k + 1] } else { 0 };
        out.push(hi * 16 + lo);
        k = k + 1;
        assert(out@ =~= hex_pairs(d).subrange(0, k as int));
    }
    assert(out@ =~= hex_pairs(d));
    Ok(out)
}

/// The decoding parameters of a stream dictionary: its /DecodeParms, where
/// that is a dictionary.
pub open spec fn decode_params(dict: Seq<(Seq<u8>, Object)>) -> Option<Seq<(Seq<u8>, Object)>> {
    match entries_get(dict, decode_parms_bytes()) {
        Some(Object::Dictionary(d)) => Some(d@),
        _ => None,
    }
}

/// What one filter gives for `data`.
pub open spec fn filter_stage(name: Seq<u8>, data: Seq<u8>, params: Option<Seq<(Seq<u8>, Object)>>, limit: Option<usize>)
    -> Option<Result<Seq<u8>, Error>>
{
    if name == flate_decode_bytes() {
        Some(flate_decoded(data, params, limit))
    } else if name == lzw_decode_bytes() {
        Some(lzw_decoded(data, params, limit))
    } else if name == ascii85_decode_bytes() {
        Some(ascii85_decoded(data, limit))
    } else if name == brotli_decode_bytes() {
        Some(brotli_decoded(data, limit))
    } else if name == ascii_hex_decode_bytes() {
        Some(ascii_hex_decoded(data, limit))
    } else {
        Some(Err(Error::Unimplemented("decompression algorithms")))
    }
}

/// The filters `names[i..]` applied in turn to `data`, each output held to
/// the limit; or nothing where an LZW filter leaves the result open.
pub open spec fn filter_chain(names: Seq<Seq<u8>>, i: int, data: Seq<u8>, params: Option<Seq<(Seq<u8>, Object)>>, limit: Option<usize>)
    -> Option<Result<Seq<u8>, Error>>
    decreases names.len() - i,
{
    if !(0 <= i < names.len()) {
        Some(Ok(data))
    } else {
        match filter_stage(names[i], data, params, limit) {
            None => None,
            Some(Err(e)) => Some(Err(e)),
            Some(Ok(out)) => if limit matches Some(max) && out.len() > max {
                Some(Err(limit_error(limit->0)))
            } else {
                filter_chain(names, i + 1, out, params, limit)
            },
        }
    }
}

/// What decoding a stream with dictionary `dict` and `content` gives under
/// `limit`, where the library can say it. Without filters the content comes
/// back as it is, held to the limit; with an empty list of filters nothing
/// comes back.
pub open spec fn stream_decoded(dict: Seq<(Seq<u8>, Object)>, content: Seq<u8>, limit: Option<usize>)
    -> Option<Result<Seq<u8>, Error>>
{
    match entries_get(dict, filter_bytes()) {
        Some(f) => match filter_names(f) {
            Some(names) => if names.len() == 0 {
                Some(Ok(Seq::empty()))
            } else {
                filter_chain(names, 0, content, decode_params(dict), limit)
            },
            None => unfiltered(content, limit),
        },
        None => unfiltered(content, limit),
    }
}

/// Every chain of filters has a stated outcome.
pub proof fn lemma_filter_chain_known(names: Seq<Seq<u8>>, i: int, data: Seq<u8>, params: Option<Seq<(Seq<u8>, Object)>>,
    limit: Option<usize>)
    ensures
        filter_chain(names, i, data, params, limit) is Some,
    decreases names.len() - i,
{
    if 0 <= i < names.len() {
        match filter_stage(names[i], data, params, limit) {
            Some(Ok(out)) => if !(limit matches Some(max) && out.len() > max) {
                lemma_filter_chain_known(names, i + 1, out, params, limit);
            },
            _ => {},
        }
    }
}

/// Decoding any stream has a stated outcome.
pub proof fn lemma_stream_decoded_known(dict: Seq<(Seq<u8>, Object)>, content: Seq<u8>, limit: Option<usize>)
    ensures
        stream_decoded(dict, content, limit) is Some,
{
    match entries_get(dict, filter_bytes()) {
        Some(f) => match filter_names(f) {
            Some(names) => if names.len() != 0 {
                lemma_filter_chain_known(names, 0, content, decode_params(dict), limit);
            },
            None => {},
        },
        None => {},
    }
}

/// The content of a stream without filters, held to `limit`.
pub open spec fn unfiltered(content: Seq<u8>, limit: Option<usize>) -> Option<Result<Seq<u8>, Error>> {
    if limit matches Some(max) && content.len() > max {
        Some(Err(limit_error(limit->0)))
    } else {
        Some(Ok(content))
    }
}

/// Whether decoding the stream cannot end in a panic: the sizes of its
/// predictor fit.
pub open spec fn stream_decodable(dict: Seq<(Seq<u8>, Object)>) -> bool {
    predictor_fits(decode_params(dict))
}

/// Whether the result of decoding is held to the limit.
pub open spec fn within_limit(r: Result<Vec<u8>, Error>, limit: Option<usize>) -> bool {
    match limit {
        Some(max) => r matches Ok(v) ==> v@.len() <= max,
        None => true,
    }
}

/// Whether `r` is what `decoded` says, where it says anything.
pub open spec fn decoded_as(r: Result<Vec<u8>, Error>, decoded: Option<Result<Seq<u8>, Error>>) -> bool {
    match decoded {
        Some(Ok(v)) => r matches Ok(w) && w@ == v,
        Some(Err(e)) => r matches Err(e2) && e2 == e,
        None => true,
    }
}

fn copy_content(v: &Vec<u8>) -> (r: Vec<u8>)
    ensures
        r@ == v@,
{
    let mut out: Vec<u8> = Vec::new();
    let mut i: usize = 0;
    while i < v.len()
        invariant
            i <= v@.len(),
            out@ == v@.subrange(0, i as int),
        decreases v@.len() - i,
    {
        out.push(v[i]);
        i = i + 1;
        assert(out@ =~= v@.subrange(0, i as int));
    }
    assert(v@.subrange(0, v@.len() as int) =~= v@);
    out
}

impl Stream {
    /// Whether the predictor that the stream's decoding parameters name has
    /// rows whose sizes fit in memory, so that its filters can be decoded.
    pub fn is_decodable(&self) -> (r: bool)
        ensures
            r == stream_decodable(self.dict@),
    {
        match self.params() {
            None => true,
            Some(p) => {
                let predictor = int_entry(p, predictor_key().as_slice(), 1);
                if 10 <= predictor && predictor <= 15 {
                    let columns = int_entry(p, columns_key().as_slice(), 1);
                    let colors = int_entry(p, colors_key().as_slice(), 1);
                    let bits = int_entry(p, bits_per_component_key().as_slice(), 8);
                    #[verifier::truncate]
                    let ppr = (if columns < 1 { 1 } else { columns }) as usize;
                    #[verifier::truncate]
                    let c = (if colors < 1 { 1 } else { colors }) as usize;
                    #[verifier::truncate]
                    let b = (if bits < 8 { 8 } else { bits }) as usize;
                    assert((c as u128) * (b as u128) <= 0xffff_ffff_ffff_ffffu128 * 0xffff_ffff_ffff_ffffu128) by (nonlinear_arith)
                        requires
                            c <= 0xffff_ffff_ffff_ffffu64,
                            b <= 0xffff_ffff_ffff_ffffu64;
                    let bits_pp: u128 = c as u128 * b as u128;
                    if bits_pp > usize::MAX as u128 {
                        return false;
                    }
                    let bytes_pp: u128 = bits_pp / 8;
                    assert(bytes_pp * (ppr as u128) <= 0xffff_ffff_ffff_ffffu128 * 0xffff_ffff_ffff_ffffu128) by (nonlinear_arith)
                        requires
                            bytes_pp <= 0xffff_ffff_ffff_ffffu128,
                            ppr <= 0xffff_ffff_ffff_ffffu64;
                    if bytes_pp * (ppr as u128) > usize::MAX as u128 {
                        return false;
                    }
                    ppr > 0 || bytes_pp == 0
                } else {
                    true
                }
            },
        }
    }

    /// The decoding parameters, where /DecodeParms is a dictionary.
    fn params(&self) -> (r: Option<&Dictionary>)
        ensures
            match r { Some(p) => Some(p@), None => None } == decode_params(self.dict@),
    {
        match self.dict.get(decode_parms_key().as_slice()) {
            Ok(o) => match o.as_dict() {
                Ok(d) => Some(d),
                Err(_) => None,
            },
            Err(_) => None,
        }
    }

    /// Decodes the content through the filters in order. `limit` is `None` to
    /// decode without a bound, or `Some(max)` to refuse any filter's output
    /// of more than `max` bytes.
    pub fn decode_filters(&self, limit: Option<usize>) -> (r: Result<Vec<u8>, Error>)
        requires
            stream_decodable(self.dict@),
        ensures
            decoded_as(r, stream_decoded(self.dict@, self.content@, limit)),
            within_limit(r, limit),
    {
        let params = self.params();
        let filters = match self.filters() {
            Ok(f) => f,
            Err(_) => {
                if let Some(max) = limit {
                    if self.content.len() > max {
                        return Err(Error::Decompress(DecompressError::MemoryLimitExceeded { limit: max }));
                    }
                }
                return Ok(copy_content(&self.content));
            },
        };
        let ghost names = filter_names(entries_get(self.dict@, filter_bytes())->0)->0;
        let ghost pv = decode_params(self.dict@);
        let mut output: Vec<u8> = Vec::new();
        let mut i: usize = 0;
        let ghost mut known = true;
        while i < filters.len()
            invariant
                filters@.len() == names.len(),
                forall|j: int| 0 <= j < names.len() ==> #[trigger] filters@[j]@ == names[j],
                i <= filters@.len(),
                pv == decode_params(self.dict@),
                match params { Some(p) => Some(p@), None => None } == pv,
                predictor_fits(pv),
                names.len() > 0 ==> stream_decoded(self.dict@, self.content@, limit)
                    == filter_chain(names, 0, self.content@, pv, limit),
                known ==> if i == 0 {
                    filter_chain(names, 0, self.content@, pv, limit) == filter_chain(names, 0, self.content@, pv, limit)
                } else {
                    filter_chain(names, 0, self.content@, pv, limit) == filter_chain(names, i as int, output@, pv, limit)
                },
                !known ==> filter_chain(names, 0, self.content@, pv, limit) is None,
                names.len() == 0 ==> stream_decoded(self.dict@, self.content@, limit) == Some(Ok::<Seq<u8>, Error>(Seq::empty())),
                output@.len() == 0 || i > 0,
                i > 0 ==> within_limit(Ok::<Vec<u8>, Error>(output), limit),
            decreases filters@.len() - i,
        {
            let input: &[u8] = if i == 0 { self.content.as_slice() } else { output.as_slice() };
            let ghost data = input@;
            let filter = filters[i];
            let next = if bytes_eq(filter, flate_decode_key().as_slice()) {
                decompress_zlib(input, params, limit)
            } else if bytes_eq(filter, lzw_decode_key().as_slice()) {
                decompress_lzw(input, params, limit)
            } else if bytes_eq(filter, ascii85_decode_key().as_slice()) {
                decode_ascii85(input, limit)
            } else if bytes_eq(filter, brotli_decode_key().as_slice()) {
                decompress_brotli(input, limit)
            } else if bytes_eq(filter, ascii_hex_decode_key().as_slice()) {
                decode_ascii_hex(input, limit)
            } else {
                Err(Error::Unimplemented("decompression algorithms"))
            };
            let out = match next {
                Ok(v) => v,
                Err(e) => {
                    return Err(e);
                },
            };
            if let Some(max) = limit {
                if out.len() > max {
                    return Err(Error::Decompress(DecompressError::MemoryLimitExceeded { limit: max }));
                }
            }
            output = out;
            i = i + 1;
        }
        assert(names.len() == 0 ==> output@ =~= Seq::<u8>::empty());
        Ok(output)
    }
}

fn bytes_eq(a: &[u8], b: &[u8]) -> (r: bool)
    ensures
        r == (a@ == b@),
{
    crate::object::bytes_equal(a, b)
}

impl Stream {
    /// Decode this stream's content, applying its filters in order, with no
    /// bound on the size of the output.
    pub fn decompressed_content(&self) -> (r: Result<Vec<u8>, Error>)
        requires
            stream_decodable(self.dict@),
        ensures
            decoded_as(r, stream_decoded(self.dict@, self.content@, None)),
    {
        self.decode_filters(None)
    }

    /// Decode this stream's content, rejecting the stream with
    /// `DecompressError::MemoryLimitExceeded` if the output of a filter would
    /// exceed `max_output` bytes.
    pub fn decompressed_content_with_limit(&self, max_output: usize) -> (r: Result<Vec<u8>, Error>)
        requires
            stream_decodable(self.dict@),
        ensures
            decoded_as(r, stream_decoded(self.dict@, self.content@, Some(max_output))),
            r matches Ok(v) ==> v@.len() <= max_output,
    {
        self.decode_filters(Some(max_output))
    }

    /// The content with its filters decoded where it has a non-empty list of
    /// them, else the content as it is.
    pub fn get_plain_content(&self) -> (r: Result<Vec<u8>, Error>)
        requires
            stream_decodable(self.dict@),
        ensures
            match entries_get(self.dict@, filter_bytes()) {
                Some(f) => match filter_names(f) {
                    Some(names) => if names.len() > 0 {
                        decoded_as(r, stream_decoded(self.dict@, self.content@, None))
                    } else {
                        r matches Ok(v) && v@ == self.content@
                    },
                    None => r matches Ok(v) && v@ == self.content@,
                },
                None => r matches Ok(v) && v@ == self.content@,
            },
    {
        match self.filters() {
            Ok(v) => {
                if v.len() > 0 {
                    return self.decompressed_content();
                }
                Ok(copy_content(&self.content))
            },
            Err(_) => Ok(copy_content(&self.content)),
        }
    }

    /// Replaces the content by its decoded form and drops /Filter and
    /// /DecodeParms.
    pub fn decompress(&mut self) -> (r: Result<(), Error>)
        requires
            stream_decodable(old(self).dict@),
        ensures
            decompressed_as(*old(self), *final(self), r, None),
    {
        let data = self.decompressed_content()?;
        self.dict.remove(decode_parms_key().as_slice());
        self.dict.remove(filter_key().as_slice());
        self.set_content(data);
        Ok(())
    }

    /// Like `decompress`, but refuses output of more than `max_output` bytes.
    pub fn decompress_with_limit(&mut self, max_output: usize) -> (r: Result<(), Error>)
        requires
            stream_decodable(old(self).dict@),
        ensures
            decompressed_as(*old(self), *final(self), r, Some(max_output)),
    {
        let data = self.decompressed_content_with_limit(max_output)?;
        self.dict.remove(decode_parms_key().as_slice());
        self.dict.remove(filter_key().as_slice());
        self.set_content(data);
        Ok(())
    }

    /// Compresses the content with Flate at the best level where the stream
    /// has no /Filter and the compressed form is more than 19 bytes shorter.
    pub fn compress(&mut self) -> (r: Result<(), Error>)
        ensures
            entries_get(old(self).dict@, filter_bytes()) is None && r is Ok ==> {
                let z = zlib_compressed(old(self).content@);
                if z.len() + 19 < old(self).content@.len() {
                    &&& final(self).content@ == z
                    &&& exists|name: Object| name@ == PdfValue::Name(flate_decode_bytes())
                        && final(self).dict@ == entries_set(entries_set(old(self).dict@, filter_bytes(), name),
                            length_bytes(), Object::Integer(z.len() as i64))
                } else {
                    *final(self) == *old(self)
                }
            },
            entries_get(old(self).dict@, filter_bytes()) is Some ==> r is Ok && *final(self) == *old(self),
            r is Err ==> *final(self) == *old(self),
            final(self).allows_compression == old(self).allows_compression,
            final(self).start_position == old(self).start_position,
    {
        if self.dict.get(filter_key().as_slice()).is_err() {
            let compressed = match zlib_compress(self.content.as_slice()) {
                Ok(c) => c,
                Err(e) => {
                    return Err(Error::IO(e));
                },
            };
            if compressed.len() < self.content.len() && self.content.len() - compressed.len() > 19 {
                let name = Object::Name(flate_decode_key());
                let ghost named = name;
                self.dict.set(filter_key(), name);
                self.set_content(compressed);
                assert(named@ == PdfValue::Name(flate_decode_bytes()));
            }
        }
        Ok(())
    }
}

/// Whether `after` is `before` decompressed, as `r` says.
pub open spec fn decompressed_as(before: Stream, after: Stream, r: Result<(), Error>, limit: Option<usize>) -> bool {
    &&& match stream_decoded(before.dict@, before.content@, limit) {
        Some(Ok(data)) => r is Ok && after.content@ == data,
        Some(Err(e)) => r == Err::<(), Error>(e),
        None => true,
    }
    &&& r is Ok ==> after.dict@ == entries_set(
        entries_remove(entries_remove(before.dict@, decode_parms_bytes()), filter_bytes()),
        length_bytes(),
        Object::Integer(after.content@.len() as i64),
    )
    &&& r is Ok ==> match limit { Some(max) => after.content@.len() <= max, None => true }
    &&& r is Err ==> after == before
    &&& after.allows_compression == before.allows_compression
    &&& after.start_position == before.start_position
}

/// What Flate compression at the best level makes of `data`.
pub uninterp spec fn zlib_compressed(data: Seq<u8>) -> Seq<u8>;

/// Compresses `data` with `flate2::write::ZlibEncoder` at
/// `Compression::best()`: writes it all, then finishes. The bytes it gives
/// are named.
#[verifier::external_body]
fn zlib_compress(data: &[u8]) -> (r: Result<Vec<u8>, std::io::Error>)
    ensures
        r matches Ok(v) ==> v@ == zlib_compressed(data@),
{
    let mut encoder = flate2::write::ZlibEncoder::new(Vec::new(), flate2::Compression::best());
    std::io::Write::write_all(&mut encoder, data)?;
    encoder.finish()
}

} // verus!
