//! PNG predictor filters (ISO 32000-1, 7.4.4.4), applied row by row.

use vstd::prelude::*;

verus! {

/// The PNG filter type that precedes each row of predicted data.
#[derive(Debug, Clone, Copy, PartialEq, Eq, Structural)]
pub enum FilterType {
    NoFilter,
    Sub,
    Up,
    Avg,
    Paeth,
}

/// The filter type that a byte stands for, if any.
pub open spec fn filter_type_of(n: u8) -> Option<FilterType> {
    if n == 0 {
        Some(FilterType::NoFilter)
    } else if n == 1 {
        Some(FilterType::Sub)
    } else if n == 2 {
        Some(FilterType::Up)
    } else if n == 3 {
        Some(FilterType::Avg)
    } else if n == 4 {
        Some(FilterType::Paeth)
    } else {
        None
    }
}

impl FilterType {
    /// The filter type numbered `n`, or `None` when `n` is above 4.
    pub fn from_u8(n: u8) -> (r: Option<FilterType>)
        ensures
            r == filter_type_of(n),
    {
        match n {
            0 => Some(FilterType::NoFilter),
            1 => Some(FilterType::Sub),
            2 => Some(FilterType::Up),
            3 => Some(FilterType::Avg),
            4 => Some(FilterType::Paeth),
            _ => None,
        }
    }
}


/// The Paeth predictor: of `left`, `above` and `upperleft`, the one closest to
/// `left + above - upperleft`, ties going to `left`, then `above`.
pub open spec fn paeth(left: u8, above: u8, upperleft: u8) -> u8 {
    let estimate = left + above - upperleft;
    let dist_left = abs_int(estimate - left);
    let dist_above = abs_int(estimate - above);
    let dist_upperleft = abs_int(estimate - upperleft);
    if dist_left <= dist_above && dist_left <= dist_upperleft {
        left
    } else if dist_above <= dist_upperleft {
        above
    } else {
        upperleft
    }
}

pub open spec fn abs_int(x: int) -> int {
    if x < 0 { -x } else { x }
}

/// Byte addition modulo 256.
pub open spec fn add_mod(a: u8, b: u8) -> u8 {
    ((a + b) % 256) as u8
}

/// Byte subtraction modulo 256.
pub open spec fn sub_mod(a: u8, b: u8) -> u8 {
    ((a - b + 256) % 256) as u8
}

fn paeth_predict(left: u8, above: u8, upperleft: u8) -> (r: u8)
    ensures
        r == paeth(left, above, upperleft),
{
    let expand_left = left as i16;
    let expand_above = above as i16;
    let expand_upperleft = upperleft as i16;

    let initial_estimate = expand_left + expand_above - expand_upperleft;

    let dist_left = abs_i16(initial_estimate - expand_left);
    let dist_above = abs_i16(initial_estimate - expand_above);
    let dist_upperleft = abs_i16(initial_estimate - expand_upperleft);

    if dist_left <= dist_above && dist_left <= dist_upperleft {
        left
    } else if dist_above <= dist_upperleft {
        above
    } else {
        upperleft
    }
}

fn abs_i16(x: i16) -> (r: i16)
    requires
        x > i16::MIN,
    ensures
        r == abs_int(x as int),
{
    if x < 0 { -x } else { x }
}

/// Whether `r` is the Paeth choice among `left`, `above` and `upperleft`:
/// the one nearest to `left + above - upperleft`, a tie going to `left`,
/// then to `above`.
pub open spec fn is_paeth_choice(left: u8, above: u8, upperleft: u8, r: u8) -> bool {
    let p = left as int + above as int - upperleft as int;
    let dl = if p >= left { p - left } else { left - p };
    let da = if p >= above { p - above } else { above - p };
    let du = if p >= upperleft { p - upperleft } else { upperleft - p };
    ||| r == left && dl <= da && dl <= du
    ||| r == above && da < dl && da <= du
    ||| r == upperleft && du < dl && du < da
}

/// The Paeth predictor picks, of the left, upper and upper-left bytes, the
/// one nearest to left + above - upperleft, ties going to the left byte,
/// then the upper one; where the upper and upper-left bytes are equal it is
/// the left byte, and where the left and upper-left ones are, the upper one.
pub proof fn lemma_paeth_nearest(left: u8, above: u8, upperleft: u8)
    ensures
        is_paeth_choice(left, above, upperleft, paeth(left, above, upperleft)),
        above == upperleft ==> paeth(left, above, upperleft) == left,
        left == upperleft ==> paeth(left, above, upperleft) == above,
{
}

/// What decoding a Paeth-filtered row gives, byte by byte: each byte is its
/// filtered value plus the Paeth choice among the decoded byte `bpp` to its
/// left, the byte above it and the byte above that left one, the bytes
/// before the row's start counting as zero.
pub proof fn lemma_paeth_row_bytes(bpp: int, previous: Seq<u8>, raw: Seq<u8>, i: int)
    requires
        row_fits(FilterType::Paeth, bpp, previous.len() as int, raw.len() as int),
        bpp >= 1,
        0 <= i < raw.len(),
    ensures
        ({
            let d = decoded_row(FilterType::Paeth, bpp, previous, raw);
            let left = if i >= bpp { d[i - bpp] } else { 0u8 };
            let upperleft = if i >= bpp { previous[i - bpp] } else { 0u8 };
            exists|r: u8| is_paeth_choice(left, previous[i], upperleft, r) && d[i] == add_mod(raw[i], r)
        }),
{
    lemma_decode_steps_len(FilterType::Paeth, bpp, previous, raw, raw.len());
    lemma_decode_steps_stable(FilterType::Paeth, bpp, previous, raw, (i + 1) as nat, raw.len());
    lemma_decode_steps_stable(FilterType::Paeth, bpp, previous, raw, i as nat, raw.len());
    lemma_decode_steps_raw(FilterType::Paeth, bpp, previous, raw, i as nat);
    let s = decode_steps(FilterType::Paeth, bpp, previous, raw, i as nat);
    let d = decoded_row(FilterType::Paeth, bpp, previous, raw);
    let left = if i >= bpp { d[i - bpp] } else { 0u8 };
    let upperleft = if i >= bpp { previous[i - bpp] } else { 0u8 };
    lemma_decode_steps_len(FilterType::Paeth, bpp, previous, raw, i as nat);
    let s1 = decode_steps(FilterType::Paeth, bpp, previous, raw, (i + 1) as nat);
    assert(s1 == s.update(i, add_mod(s[i], decode_predictor(FilterType::Paeth, bpp, previous, s, i))));
    assert(s[i] == raw[i]);
    assert(d[i] == s1[i]);
    if i >= bpp {
        assert(s[i - bpp] == d[i - bpp]);
    }
    lemma_paeth_nearest(left, previous[i], upperleft);
    assert(d[i] == add_mod(raw[i], paeth(left, previous[i], upperleft)));
}

/// Decoding more bytes leaves those already decoded as they are.
proof fn lemma_decode_steps_stable(filter: FilterType, bpp: int, previous: Seq<u8>, raw: Seq<u8>, k: nat, n: nat)
    requires
        k <= n <= raw.len(),
    ensures
        forall|j: int| 0 <= j < k ==> #[trigger] decode_steps(filter, bpp, previous, raw, n)[j]
            == decode_steps(filter, bpp, previous, raw, k)[j],
    decreases n,
{
    if n > k {
        lemma_decode_steps_stable(filter, bpp, previous, raw, k, (n - 1) as nat);
        lemma_decode_steps_len(filter, bpp, previous, raw, (n - 1) as nat);
    }
}

/// The bytes not decoded yet are still the filtered ones.
proof fn lemma_decode_steps_raw(filter: FilterType, bpp: int, previous: Seq<u8>, raw: Seq<u8>, k: nat)
    requires
        k <= raw.len(),
    ensures
        forall|j: int| k <= j < raw.len() ==> #[trigger] decode_steps(filter, bpp, previous, raw, k)[j] == raw[j],
    decreases k,
{
    if k > 0 {
        lemma_decode_steps_raw(filter, bpp, previous, raw, (k - 1) as nat);
        lemma_decode_steps_len(filter, bpp, previous, raw, (k - 1) as nat);
    }
}

/// What the decoder adds to byte `i` of a row. `state` is the row part way
/// through decoding: its first `i` bytes are decoded, the rest still filtered;
/// `previous` is the decoded row above.
pub open spec fn decode_predictor(
    filter: FilterType,
    bpp: int,
    previous: Seq<u8>,
    state: Seq<u8>,
    i: int,
) -> u8 {
    match filter {
        FilterType::NoFilter => 0,
        FilterType::Sub => if i >= bpp { state[i - bpp] } else { 0 },
        FilterType::Up => previous[i],
        FilterType::Avg => if i >= bpp {
            ((state[i - bpp] + previous[i]) / 2) as u8
        } else {
            (previous[i] / 2) as u8
        },
        FilterType::Paeth => if i >= bpp {
            paeth(state[i - bpp], previous[i], previous[i - bpp])
        } else {
            paeth(0, previous[i], 0)
        },
    }
}

/// The row after its first `n` bytes have been decoded, in order, from the
/// filtered row `raw`.
pub open spec fn decode_steps(
    filter: FilterType,
    bpp: int,
    previous: Seq<u8>,
    raw: Seq<u8>,
    n: nat,
) -> Seq<u8>
    decreases n,
{
    if n == 0 {
        raw
    } else {
        let s = decode_steps(filter, bpp, previous, raw, (n - 1) as nat);
        s.update(n - 1, add_mod(s[n - 1], decode_predictor(filter, bpp, previous, s, n - 1)))
    }
}

/// The decoded row.
pub open spec fn decoded_row(filter: FilterType, bpp: int, previous: Seq<u8>, raw: Seq<u8>) -> Seq<u8> {
    decode_steps(filter, bpp, previous, raw, raw.len())
}

/// What the encoder subtracts from byte `i` of the row `row`.
pub open spec fn encode_predictor(filter: FilterType, bpp: int, previous: Seq<u8>, row: Seq<u8>, i: int) -> u8 {
    match filter {
        FilterType::NoFilter => 0,
        FilterType::Sub => if i >= bpp { row[i - bpp] } else { 0 },
        FilterType::Up => previous[i],
        FilterType::Avg => if i >= bpp {
            (add_mod(row[i - bpp], previous[i]) / 2) as u8
        } else {
            (previous[i] / 2) as u8
        },
        FilterType::Paeth => if i >= bpp {
            paeth(row[i - bpp], previous[i], previous[i - bpp])
        } else {
            paeth(0, previous[i], 0)
        },
    }
}

/// The encoded (filtered) row.
pub open spec fn encoded_row(filter: FilterType, bpp: int, previous: Seq<u8>, row: Seq<u8>) -> Seq<u8> {
    Seq::new(row.len(), |i: int| sub_mod(row[i], encode_predictor(filter, bpp, previous, row, i)))
}

/// What a row needs of its neighbours for `filter` not to read out of bounds.
pub open spec fn row_fits(filter: FilterType, bpp: int, previous_len: int, len: int) -> bool {
    match filter {
        FilterType::NoFilter | FilterType::Sub => true,
        FilterType::Up => previous_len >= len,
        FilterType::Avg | FilterType::Paeth => bpp <= len && previous_len >= len,
    }
}

proof fn lemma_decode_steps_len(filter: FilterType, bpp: int, previous: Seq<u8>, raw: Seq<u8>, n: nat)
    requires
        n <= raw.len(),
    ensures
        decode_steps(filter, bpp, previous, raw, n).len() == raw.len(),
    decreases n,
{
    if n > 0 {
        lemma_decode_steps_len(filter, bpp, previous, raw, (n - 1) as nat);
    }
}

/// Undoes the prediction of one row in place: `current` holds the filtered
/// bytes and ends up holding the decoded row.
pub fn decode_row(filter: FilterType, bpp: usize, previous: &[u8], current: &mut [u8])
    requires
        row_fits(filter, bpp as int, previous@.len() as int, old(current)@.len() as int),
    ensures
        final(current)@ == decoded_row(filter, bpp as int, previous@, old(current)@),
        final(current)@.len() == old(current)@.len(),
{
    proof {
        lemma_decode_steps_len(filter, bpp as int, previous@, old(current)@, old(current)@.len());
    }
    let len = current.len();
    let ghost raw = current@;
    let mut i: usize = 0;
    while i < len
        invariant
            len == current@.len(),
            len == raw.len(),
            i <= len,
            row_fits(filter, bpp as int, previous@.len() as int, len as int),
            current@ == decode_steps(filter, bpp as int, previous@, raw, i as nat),
        decreases len - i,
    {
        proof {
            lemma_decode_steps_len(filter, bpp as int, previous@, raw, i as nat);
        }
        let p: u8 = match filter {
            FilterType::NoFilter => 0,
            FilterType::Sub => if i >= bpp {
                current[i - bpp]
            } else {
                0
            },
            FilterType::Up => previous[i],
            FilterType::Avg => if i >= bpp {
                ((current[i - bpp] as i16 + previous[i] as i16) / 2) as u8
            } else {
                previous[i] / 2
            },
            FilterType::Paeth => if i >= bpp {
                paeth_predict(current[i - bpp], previous[i], previous[i - bpp])
            } else {
                paeth_predict(0, previous[i], 0)
            },
        };
        assert(p == decode_predictor(filter, bpp as int, previous@, current@, i as int));
        current[i] = current[i].wrapping_add(p);
        i = i + 1;
    }
}


/// Applies the prediction of `method` to one row in place: `current` holds the
/// row and ends up holding the filtered bytes.
pub fn encode_row(method: FilterType, bpp: usize, previous: &[u8], current: &mut [u8])
    requires
        row_fits(method, bpp as int, previous@.len() as int, old(current)@.len() as int),
    ensures
        final(current)@ == encoded_row(method, bpp as int, previous@, old(current)@),
{
    let len = current.len();
    let ghost row = current@;
    let mut i: usize = len;
    while i > 0
        invariant
            len == current@.len(),
            len == row.len(),
            i <= len,
            row_fits(method, bpp as int, previous@.len() as int, len as int),
            forall|j: int| 0 <= j < i ==> current@[j] == row[j],
            forall|j: int|
                i <= j < len ==> current@[j] == sub_mod(row[j], encode_predictor(method, bpp as int, previous@, row, j)),
        decreases i,
    {
        i = i - 1;
        let p: u8 = match method {
            FilterType::NoFilter => 0,
            FilterType::Sub => if i >= bpp {
                current[i - bpp]
            } else {
                0
            },
            FilterType::Up => previous[i],
            FilterType::Avg => if i >= bpp {
                current[i - bpp].wrapping_add(previous[i]) / 2
            } else {
                previous[i] / 2
            },
            FilterType::Paeth => if i >= bpp {
                paeth_predict(current[i - bpp], previous[i], previous[i - bpp])
            } else {
                paeth_predict(0, previous[i], 0)
            },
        };
        assert(p == encode_predictor(method, bpp as int, previous@, row, i as int));
        current[i] = current[i].wrapping_sub(p);
    }
    assert(current@ =~= encoded_row(method, bpp as int, previous@, row));
}


/// Where the `Avg` filter of the encoder loses a carry: its sum
/// `row[i - bpp] + previous[i]` is taken modulo 256, the decoder's is not.
pub open spec fn avg_sums_fit(bpp: int, previous: Seq<u8>, row: Seq<u8>) -> bool {
    forall|i: int| bpp <= i < row.len() ==> row[i - bpp] + previous[i] < 256
}

proof fn lemma_add_sub_mod(r: u8, p: u8)
    ensures
        add_mod(sub_mod(r, p), p) == r,
{
}

proof fn lemma_decode_of_encoded_steps(
    filter: FilterType,
    bpp: int,
    previous: Seq<u8>,
    row: Seq<u8>,
    n: nat,
)
    requires
        bpp > 0,
        n <= row.len(),
        row_fits(filter, bpp, previous.len() as int, row.len() as int),
        filter == FilterType::Avg ==> avg_sums_fit(bpp, previous, row),
    ensures
        decode_steps(filter, bpp, previous, encoded_row(filter, bpp, previous, row), n)
            =~= Seq::new(row.len(), |j: int| if j < n { row[j] } else { encoded_row(filter, bpp, previous, row)[j] }),
    decreases n,
{
    let enc = encoded_row(filter, bpp, previous, row);
    if n > 0 {
        lemma_decode_of_encoded_steps(filter, bpp, previous, row, (n - 1) as nat);
        let s = decode_steps(filter, bpp, previous, enc, (n - 1) as nat);
        let i = n - 1;
        assert(decode_predictor(filter, bpp, previous, s, i) == encode_predictor(filter, bpp, previous, row, i)) by {
            if filter == FilterType::Avg && i >= bpp {
                assert(row[i - bpp] + previous[i] < 256);
            }
        }
        lemma_add_sub_mod(row[i], encode_predictor(filter, bpp, previous, row, i));
    }
}

/// Decoding a row that `encode_row` filtered gives the row back, for every
/// filter type and a positive pixel width; for `Avg` only where the
/// encoder's sums do not wrap.
pub proof fn lemma_decode_encode_row(filter: FilterType, bpp: int, previous: Seq<u8>, row: Seq<u8>)
    requires
        bpp > 0,
        row_fits(filter, bpp, previous.len() as int, row.len() as int),
        filter == FilterType::Avg ==> avg_sums_fit(bpp, previous, row),
    ensures
        decoded_row(filter, bpp, previous, encoded_row(filter, bpp, previous, row)) == row,
{
    lemma_decode_of_encoded_steps(filter, bpp, previous, row, row.len());
}


/// Why a predicted frame could not be decoded.
#[derive(Debug, Clone, Copy, PartialEq, Eq, Structural)]
pub enum PngError {
    /// A row starts with a byte that names no filter type.
    InvalidFilterType(u8),
    /// The frame ends inside a row.
    UnexpectedEof,
}

/// The rows of `content` from byte `pos` on, decoded: each row is a filter-type
/// byte followed by `bytes_per_row` filtered bytes, and `previous` is the
/// decoded row above the first of them.
pub open spec fn decoded_frame_from(
    content: Seq<u8>,
    bpp: int,
    bytes_per_row: int,
    previous: Seq<u8>,
    pos: int,
) -> Result<Seq<u8>, PngError>
    decreases content.len() - pos,
{
    if pos < 0 || pos >= content.len() {
        Ok(Seq::empty())
    } else {
        match filter_type_of(content[pos]) {
            None => Err(PngError::InvalidFilterType(content[pos])),
            Some(filter) => if bytes_per_row < 0 || pos + 1 + bytes_per_row > content.len() {
                Err(PngError::UnexpectedEof)
            } else {
                let row = decoded_row(filter, bpp, previous, content.subrange(pos + 1, pos + 1 + bytes_per_row));
                match decoded_frame_from(content, bpp, bytes_per_row, row, pos + 1 + bytes_per_row) {
                    Ok(rest) => Ok(row + rest),
                    Err(e) => Err(e),
                }
            },
        }
    }
}

/// The decoded frame: the first row is predicted from a row of zeros.
pub open spec fn decoded_frame(content: Seq<u8>, bytes_per_pixel: int, pixels_per_row: int) -> Result<Seq<u8>, PngError> {
    let bytes_per_row = bytes_per_pixel * pixels_per_row;
    decoded_frame_from(content, bytes_per_pixel, bytes_per_row, Seq::new(bytes_per_row as nat, |i: int| 0u8), 0)
}

/// Decodes a whole frame of PNG-predicted rows.
pub fn decode_frame(content: &[u8], bytes_per_pixel: usize, pixels_per_row: usize) -> (r: Result<Vec<u8>, PngError>)
    requires
        bytes_per_pixel * pixels_per_row <= usize::MAX,
        pixels_per_row > 0 || bytes_per_pixel == 0,
    ensures
        match r {
            Ok(v) => decoded_frame(content@, bytes_per_pixel as int, pixels_per_row as int) == Ok::<Seq<u8>, PngError>(v@),
            Err(e) => decoded_frame(content@, bytes_per_pixel as int, pixels_per_row as int) == Err::<Seq<u8>, PngError>(e),
        },
{
    let bytes_per_row = bytes_per_pixel * pixels_per_row;
    let ghost bpp = bytes_per_pixel as int;
    let ghost bpr = bytes_per_row as int;
    let mut previous: Vec<u8> = vec![0u8; bytes_per_row];
    let mut decoded: Vec<u8> = Vec::new();
    let mut pos: usize = 0;
    assert(bytes_per_pixel <= bytes_per_row) by (nonlinear_arith)
        requires
            bytes_per_row == bytes_per_pixel * pixels_per_row,
            pixels_per_row > 0 || bytes_per_pixel == 0,
    ;
    assert(previous@ =~= Seq::new(bytes_per_row as nat, |i: int| 0u8));
    while pos < content.len()
        invariant
            bytes_per_row == bytes_per_pixel * pixels_per_row,
            bpp == bytes_per_pixel,
            bpr == bytes_per_row,
            bytes_per_pixel <= bytes_per_row,
            previous@.len() == bytes_per_row,
            pos <= content@.len(),
            decoded_frame(content@, bpp, pixels_per_row as int) == match decoded_frame_from(content@, bpp, bpr, previous@, pos as int) {
                Ok(rest) => Ok::<Seq<u8>, PngError>(decoded@ + rest),
                Err(e) => Err::<Seq<u8>, PngError>(e),
            },
        decreases content@.len() - pos,
    {
        let tag = content[pos];
        match FilterType::from_u8(tag) {
            Some(filter) => {
                if content.len() - pos - 1 < bytes_per_row {
                    return Err(PngError::UnexpectedEof);
                }
                let mut current: Vec<u8> = Vec::with_capacity(bytes_per_row);
                let mut j: usize = 0;
                while j < bytes_per_row
                    invariant
                        pos + 1 + bytes_per_row <= content@.len(),
                        content@.len() == content.len(),
                        j <= bytes_per_row,
                        current@ == content@.subrange(pos + 1, pos + 1 + j),
                    decreases bytes_per_row - j,
                {
                    current.push(content[pos + 1 + j]);
                    j = j + 1;
                    assert(current@ =~= content@.subrange(pos + 1, pos + 1 + j));
                }
                let ghost raw = current@;
                let ghost old_prev = previous@;
                let ghost old_decoded = decoded@;
                let ghost old_pos = pos as int;
                decode_row(filter, bytes_per_pixel, previous.as_slice(), current.as_mut_slice());
                let ghost row = current@;
                decoded.extend_from_slice(current.as_slice());
                pos = pos + 1 + bytes_per_row;
                previous = current;
                proof {
                    assert(raw == content@.subrange(old_pos + 1, old_pos + 1 + bpr));
                    let next = decoded_frame_from(content@, bpp, bpr, row, pos as int);
                    assert(decoded_frame_from(content@, bpp, bpr, old_prev, old_pos) == match next {
                        Ok(rest) => Ok::<Seq<u8>, PngError>(row + rest),
                        Err(e) => Err::<Seq<u8>, PngError>(e),
                    });
                    match next {
                        Ok(rest) => {
                            assert(old_decoded + (row + rest) =~= decoded@ + rest);
                        },
                        Err(e) => {},
                    }
                }
            },
            None => {
                return Err(PngError::InvalidFilterType(tag));
            },
        }
    }
    assert(decoded@ + Seq::<u8>::empty() =~= decoded@);
    Ok(decoded)
}

} // verus!
