//! ToUnicode CMaps: for each length of source code (1 to 4 bytes), the
//! Unicode text of each code, held in ranges by `rangemap`.

use rangemap::RangeInclusiveMap;
use vstd::prelude::*;

verus! {

/// The map of ranges of `rangemap`.
#[verifier::external_type_specification]
#[verifier::external_body]
#[verifier::reject_recursive_types(K)]
#[verifier::reject_recursive_types(V)]
#[verifier::reject_recursive_types(StepFnsT)]
pub struct ExRangeInclusiveMap<K, V, StepFnsT>(RangeInclusiveMap<K, V, StepFnsT>);

/// A source character code, of up to 4 bytes.
pub type SourceCode = u32;

/// The length of a source code, in bytes.
pub type CodeLen = u8;

/// The Unicode text that a range of source codes maps to.
#[derive(Debug, PartialEq, Eq, Clone)]
pub enum BfRangeTarget {
    /// UTF-16 code units; the last one grows with the code across the range.
    HexString(Vec<u16>),
    /// One code unit, held as its distance from the code so that
    /// consecutive ranges can share one value.
    UTF16CodePoint { offset: u32 },
    /// The code units of each code of the range, in order.
    ArrayOfHexStrings(Vec<Vec<u16>>),
}

/// What a range map holds: the value at each code that its ranges cover.
pub uninterp spec fn range_points(m: RangeInclusiveMap<u32, BfRangeTarget>) -> Map<u32, BfRangeTarget>;

/// Whether `s` starts the run of codes around `key` that map to the value
/// of `key`: every code from `s` to `key` maps to it, and the code before
/// `s`, if any, does not.
pub open spec fn is_run_start(points: Map<u32, BfRangeTarget>, key: u32, s: u32) -> bool {
    &&& s <= key
    &&& forall|k: u32| s <= k <= key ==> #[trigger] points.contains_key(k) && points[k] == points[key]
    &&& s == 0 || !points.contains_key((s - 1) as u32) || points[(s - 1) as u32] != points[key]
}

/// An empty map, made with `RangeInclusiveMap::new`.
#[verifier::external_body]
fn new_range_map() -> (r: RangeInclusiveMap<u32, BfRangeTarget>)
    ensures
        forall|k: u32| !#[trigger] range_points(r).contains_key(k),
{
    RangeInclusiveMap::new()
}

/// `RangeInclusiveMap::insert`: every code from `lo` to `hi` then maps to
/// `value`, the others as before; it panics where `lo > hi`.
#[verifier::external_body]
fn range_insert(m: &mut RangeInclusiveMap<u32, BfRangeTarget>, lo: u32, hi: u32, value: BfRangeTarget)
    requires
        lo <= hi,
    ensures
        range_points(*final(m)) == range_points(*old(m)).union_prefer_right(Map::new(|k: u32| lo <= k <= hi,
            |k: u32| value)),
{
    m.insert(lo..=hi, value)
}

/// `RangeInclusiveMap::get_key_value`: the stored range that covers `key`,
/// given by its start, and its value. The map coalesces touching ranges
/// with equal values on insertion, so the range is the whole run of codes
/// around `key` that map to its value.
#[verifier::external_body]
fn range_get(m: &RangeInclusiveMap<u32, BfRangeTarget>, key: u32) -> (r: Option<(u32, BfRangeTarget)>)
    ensures
        match r {
            Some((s, v)) => range_points(*m).contains_key(key) && v == range_points(*m)[key]
                && is_run_start(range_points(*m), key, s),
            None => !range_points(*m).contains_key(key),
        },
{
    m.get_key_value(&key).map(|(range, value)| (*range.start(), value.clone()))
}

/// A ToUnicode CMap: for each length of source code from 1 to 4 bytes, the
/// ranges of codes of that length and their Unicode text.
#[derive(Debug, Default)]
pub struct ToUnicodeCMap {
    one_byte: RangeInclusiveMap<SourceCode, BfRangeTarget>,
    two_bytes: RangeInclusiveMap<SourceCode, BfRangeTarget>,
    three_bytes: RangeInclusiveMap<SourceCode, BfRangeTarget>,
    four_bytes: RangeInclusiveMap<SourceCode, BfRangeTarget>,
}

/// The code unit that stands for a missing mapping.
pub const REPLACEMENT_CHAR: u16 = 0xfffd;

/// The text that `value` gives for `code`, where `s` starts its run: the
/// code units of a string, the last one raised by the distance from `s`;
/// one code unit from an offset; the string of an array at that distance.
pub open spec fn target_text(value: BfRangeTarget, code: u32, s: u32) -> Seq<u16> {
    match value {
        BfRangeTarget::HexString(v) => v@.update(v@.len() - 1, (v@.last() + ((code - s) as u16)) as u16),
        BfRangeTarget::UTF16CodePoint { offset } => seq![(((code + offset) % 0x1_0000_0000) as u32) as u16],
        BfRangeTarget::ArrayOfHexStrings(vs) => vs@[(code - s) as int]@,
    }
}

/// Whether looking `code` up finds text that can be made without overflow:
/// a string that is not empty and whose last unit can grow by the distance,
/// or an array long enough.
pub open spec fn lookup_fits(points: Map<u32, BfRangeTarget>, code: u32) -> bool {
    points.contains_key(code) ==> forall|s: u32| #[trigger] is_run_start(points, code, s) ==> match points[code] {
        BfRangeTarget::HexString(v) => v@.len() > 0 && v@.last() + ((code - s) as u16) <= u16::MAX,
        BfRangeTarget::ArrayOfHexStrings(vs) => code - s < vs@.len(),
        _ => true,
    }
}

impl ToUnicodeCMap {
    /// The codes of `code_len` bytes and their values.
    pub closed spec fn points(&self, code_len: u8) -> Map<u32, BfRangeTarget> {
        if code_len == 1 {
            range_points(self.one_byte)
        } else if code_len == 2 {
            range_points(self.two_bytes)
        } else if code_len == 3 {
            range_points(self.three_bytes)
        } else if code_len == 4 {
            range_points(self.four_bytes)
        } else {
            Map::empty()
        }
    }

    /// A map without codes.
    pub fn new() -> (r: ToUnicodeCMap)
        ensures
            forall|n: u8| #[trigger] r.points(n) == Map::<u32, BfRangeTarget>::empty(),
    {
        ToUnicodeCMap {
            one_byte: new_range_map(),
            two_bytes: new_range_map(),
            three_bytes: new_range_map(),
            four_bytes: new_range_map(),
        }
    }

    fn map_for(&self, code_len: u8) -> (r: &RangeInclusiveMap<SourceCode, BfRangeTarget>)
        requires
            1 <= code_len <= 4,
        ensures
            range_points(*r) == self.points(code_len),
    {
        if code_len == 1 {
            &self.one_byte
        } else if code_len == 2 {
            &self.two_bytes
        } else if code_len == 3 {
            &self.three_bytes
        } else {
            &self.four_bytes
        }
    }

    /// The code units that `code` of `code_len` bytes maps to; nothing for a
    /// length outside 1 to 4 bytes or a code without a mapping.
    pub fn get(&self, code: SourceCode, code_len: CodeLen) -> (r: Option<Vec<u16>>)
        requires
            lookup_fits(self.points(code_len), code),
        ensures
            match r {
                Some(v) => self.points(code_len).contains_key(code) && exists|s: u32| #[trigger] is_run_start(
                    self.points(code_len), code, s) && v@ == target_text(self.points(code_len)[code], code, s),
                None => !self.points(code_len).contains_key(code),
            },
    {
        if code_len > 4 || code_len == 0 {
            return None;
        }
        let map = self.map_for(code_len);
        match range_get(map, code) {
            Some((start, value)) => {
                let text = match value {
                    BfRangeTarget::HexString(v) => {
                        let mut v = v;
                        let last = v.len() - 1;
                        #[verifier::truncate]
                        let step = (code - start) as u16;
                        let raised = v[last] + step;
                        v.set(last, raised);
                        v
                    },
                    BfRangeTarget::UTF16CodePoint { offset } => {
                        #[verifier::truncate]
                        let unit = code.wrapping_add(offset) as u16;
                        vec![unit]
                    },
                    BfRangeTarget::ArrayOfHexStrings(vs) => {
                        let i = (code - start) as usize;
                        let mut out: Vec<u16> = Vec::new();
                        let mut k: usize = 0;
                        while k < vs[i].len()
                            invariant
                                k <= vs@[i as int]@.len(),
                                i < vs@.len(),
                                out@ == vs@[i as int]@.subrange(0, k as int),
                            decreases vs@[i as int]@.len() - k,
                        {
                            out.push(vs[i][k]);
                            k = k + 1;
                            assert(out@ =~= vs@[i as int]@.subrange(0, k as int));
                        }
                        assert(out@ =~= vs@[i as int]@);
                        out
                    },
                };
                Some(text)
            },
            None => None,
        }
    }

    /// The code units that `code` maps to, or the replacement character.
    pub fn get_or_replacement_char(&self, code: SourceCode, code_len: CodeLen) -> (r: Vec<u16>)
        requires
            lookup_fits(self.points(code_len), code),
        ensures
            self.points(code_len).contains_key(code) ==> exists|s: u32| #[trigger] is_run_start(self.points(code_len),
                code, s) && r@ == target_text(self.points(code_len)[code], code, s),
            !self.points(code_len).contains_key(code) ==> r@ == seq![REPLACEMENT_CHAR],
    {
        match self.get(code, code_len) {
            Some(v) => v,
            None => vec![REPLACEMENT_CHAR],
        }
    }

    /// Maps every code of `code_len` bytes from `src_code_lo` to
    /// `src_code_hi` to `target`; a length outside 1 to 4 bytes is ignored.
    pub fn put(&mut self, src_code_lo: SourceCode, src_code_hi: SourceCode, code_len: CodeLen, target: BfRangeTarget)
        requires
            1 <= code_len <= 4 ==> src_code_lo <= src_code_hi,
        ensures
            forall|n: u8| n != code_len ==> #[trigger] final(self).points(n) == old(self).points(n),
            1 <= code_len <= 4 ==> final(self).points(code_len) == old(self).points(code_len).union_prefer_right(Map::new(
                |k: u32| src_code_lo <= k <= src_code_hi, |k: u32| target)),
            !(1 <= code_len <= 4) ==> final(self).points(code_len) == old(self).points(code_len),
    {
        if code_len > 4 || code_len == 0 {
            return;
        }
        if code_len == 1 {
            range_insert(&mut self.one_byte, src_code_lo, src_code_hi, target);
        } else if code_len == 2 {
            range_insert(&mut self.two_bytes, src_code_lo, src_code_hi, target);
        } else if code_len == 3 {
            range_insert(&mut self.three_bytes, src_code_lo, src_code_hi, target);
        } else {
            range_insert(&mut self.four_bytes, src_code_lo, src_code_hi, target);
        }
    }

    /// Maps the one code `code` of `code_len` bytes to the code units `dst`:
    /// one unit is held as its offset from the code.
    pub fn put_char(&mut self, code: SourceCode, code_len: CodeLen, dst: Vec<u16>)
        ensures
            forall|n: u8| n != code_len ==> #[trigger] final(self).points(n) == old(self).points(n),
            1 <= code_len <= 4 ==> final(self).points(code_len) == old(self).points(code_len).insert(code,
                if dst@.len() == 1 {
                    BfRangeTarget::UTF16CodePoint { offset: ((dst@[0] as u32 - code) % 0x1_0000_0000) as u32 }
                } else {
                    BfRangeTarget::HexString(dst)
                }),
            !(1 <= code_len <= 4) ==> final(self).points(code_len) == old(self).points(code_len),
    {
        let ghost d = dst;
        let target = if dst.len() == 1 {
            BfRangeTarget::UTF16CodePoint { offset: (dst[0] as u32).wrapping_sub(code) }
        } else {
            BfRangeTarget::HexString(dst)
        };
        self.put(code, code, code_len, target);
        proof {
            if 1 <= code_len <= 4 {
                assert(self.points(code_len) =~= old(self).points(code_len).insert(code, target));
            }
        }
    }
}


/// A section of a parsed ToUnicode CMap: code space ranges, single codes
/// with their text, or ranges of codes with their text.
#[derive(Debug)]
pub enum CMapSection {
    CsRange(Vec<((SourceCode, SourceCode), CodeLen)>),
    BfChar(Vec<((SourceCode, CodeLen), Vec<u16>)>),
    BfRange(Vec<((SourceCode, SourceCode, CodeLen), Vec<Vec<u16>>)>),
}

/// Why a CMap could not be parsed.
#[derive(Debug)]
pub enum CMapParseError {
    Incomplete,
    Error,
}

/// Why a ToUnicode CMap could not be made.
#[derive(Debug)]
pub enum UnicodeCMapError {
    Parse(CMapParseError),
    InvalidCodeRange,
}

/// The maps of codes `m`, one per code length, with the codes from `lo` to
/// `hi` of `len` bytes (from 1 to 4) mapped to `target`.
pub open spec fn put_points(m: spec_fn(u8) -> Map<u32, BfRangeTarget>, lo: u32, hi: u32, len: u8, target: BfRangeTarget)
    -> spec_fn(u8) -> Map<u32, BfRangeTarget> {
    |n: u8| if n == len && 1 <= len <= 4 {
        m(n).union_prefer_right(Map::new(|k: u32| lo <= k <= hi, |k: u32| target))
    } else {
        m(n)
    }
}

/// What a single code `code` with text `dst` maps to: one unit as its
/// offset from the code, more as the string.
pub open spec fn char_target(code: u32, dst: Vec<u16>) -> BfRangeTarget {
    if dst@.len() == 1 {
        BfRangeTarget::UTF16CodePoint { offset: ((dst@[0] as u32 - code) % 0x1_0000_0000) as u32 }
    } else {
        BfRangeTarget::HexString(dst)
    }
}

/// What a range of codes from `start` with the texts `dst` maps to: one
/// text of one unit as its offset from `start`, one text as the string,
/// several as the array; none for no text.
pub open spec fn range_target(start: u32, dst: Vec<Vec<u16>>) -> Option<BfRangeTarget> {
    if dst@.len() == 0 {
        None
    } else if dst@.len() == 1 {
        if dst@[0]@.len() == 1 {
            Some(BfRangeTarget::UTF16CodePoint { offset: ((dst@[0]@[0] as u32 - start) % 0x1_0000_0000) as u32 })
        } else {
            Some(BfRangeTarget::HexString(dst@[0]))
        }
    } else {
        Some(BfRangeTarget::ArrayOfHexStrings(dst))
    }
}

/// The maps `m` with the first `n` single codes of `cm` put.
pub open spec fn chars_points(m: spec_fn(u8) -> Map<u32, BfRangeTarget>, cm: Seq<((u32, u8), Vec<u16>)>, n: nat)
    -> spec_fn(u8) -> Map<u32, BfRangeTarget>
    decreases n,
{
    if n == 0 || n > cm.len() {
        m
    } else {
        let ((code, len), dst) = cm[n - 1];
        put_points(chars_points(m, cm, (n - 1) as nat), code, code, len, char_target(code, dst))
    }
}

/// The maps `m` with the first `n` ranges of `rm` put; `None` for a range
/// that ends before it starts or has no text.
pub open spec fn ranges_points(m: spec_fn(u8) -> Map<u32, BfRangeTarget>, rm: Seq<((u32, u32, u8), Vec<Vec<u16>>)>,
    n: nat) -> Option<spec_fn(u8) -> Map<u32, BfRangeTarget>>
    decreases n,
{
    if n == 0 || n > rm.len() {
        Some(m)
    } else {
        match ranges_points(m, rm, (n - 1) as nat) {
            None => None,
            Some(f) => {
                let ((start, end, len), dst) = rm[n - 1];
                if end < start {
                    None
                } else {
                    match range_target(start, dst) {
                        None => None,
                        Some(t) => Some(put_points(f, start, end, len, t)),
                    }
                }
            },
        }
    }
}

/// The maps `m` with the first `n` sections of `secs` put; `None` where a
/// range is invalid.
pub open spec fn sections_points(m: spec_fn(u8) -> Map<u32, BfRangeTarget>, secs: Seq<CMapSection>, n: nat)
    -> Option<spec_fn(u8) -> Map<u32, BfRangeTarget>>
    decreases n,
{
    if n == 0 || n > secs.len() {
        Some(m)
    } else {
        match sections_points(m, secs, (n - 1) as nat) {
            None => None,
            Some(f) => match secs[n - 1] {
                CMapSection::CsRange(_) => Some(f),
                CMapSection::BfChar(cm) => Some(chars_points(f, cm@, cm@.len())),
                CMapSection::BfRange(rm) => ranges_points(f, rm@, rm@.len()),
            },
        }
    }
}

/// No codes, for any length.
pub open spec fn no_points() -> spec_fn(u8) -> Map<u32, BfRangeTarget> {
    |n: u8| Map::<u32, BfRangeTarget>::empty()
}

impl ToUnicodeCMap {
    /// Makes a CMap of its parsed sections: single codes and ranges put in
    /// order; an error for a range that ends before it starts or has no
    /// text. Code space ranges are not checked.
    pub fn from_sections(cmap_sections: Vec<CMapSection>) -> (r: Result<ToUnicodeCMap, UnicodeCMapError>)
        ensures
            match sections_points(no_points(), cmap_sections@, cmap_sections@.len()) {
                Some(f) => r matches Ok(c) && forall|n: u8| #[trigger] c.points(n) == f(n),
                None => r matches Err(UnicodeCMapError::InvalidCodeRange),
            },
    {
        let ghost secs = cmap_sections@;
        let mut rest = cmap_sections;
        let mut cmap = ToUnicodeCMap::new();
        let ghost mut k: nat = 0;
        while rest.len() > 0
            invariant
                secs == cmap_sections@,
                k <= secs.len(),
                rest@ == secs.subrange(k as int, secs.len() as int),
                sections_points(no_points(), secs, k) matches Some(f) && forall|n: u8| #[trigger] cmap.points(n) == f(n),
            decreases rest@.len(),
        {
            let ghost r0 = rest@;
            let ghost f0 = sections_points(no_points(), secs, k)->0;
            let section = rest.remove(0);
            proof {
                assert(r0[0] == secs[k as int]);
                assert(rest@ =~= secs.subrange(k as int + 1, secs.len() as int));
            }
            match section {
                CMapSection::CsRange(_) => {},
                CMapSection::BfChar(char_mappings) => {
                    let ghost cm = char_mappings@;
                    let mut chars = char_mappings;
                    let ghost mut j: nat = 0;
                    while chars.len() > 0
                        invariant
                            j <= cm.len(),
                            chars@ == cm.subrange(j as int, cm.len() as int),
                            forall|n: u8| #[trigger] cmap.points(n) == chars_points(f0, cm, j)(n),
                        decreases chars@.len(),
                    {
                        let ghost c0 = chars@;
                        let ((code, code_len), dst) = chars.remove(0);
                        proof {
                            assert(c0[0] == cm[j as int]);
                            assert(chars@ =~= cm.subrange(j as int + 1, cm.len() as int));
                        }
                        let ghost d = dst;
                        let ghost before = chars_points(f0, cm, j);
                        cmap.put_char(code, code_len, dst);
                        proof {
                            j = j + 1;
                            assert forall|n: u8| #[trigger] cmap.points(n) == chars_points(f0, cm, j)(n) by {
                                if n == code_len && 1 <= code_len <= 4 {
                                    assert(cmap.points(n) =~= before(n).union_prefer_right(Map::new(
                                        |x: u32| code <= x <= code, |x: u32| char_target(code, d))));
                                }
                            }
                        }
                    }
                    proof {
                        assert(cm.subrange(j as int, cm.len() as int).len() == 0);
                    }
                },
                CMapSection::BfRange(range_mappings) => {
                    let ghost rm = range_mappings@;
                    let ghost rmv = range_mappings;
                    assert(secs[k as int] == CMapSection::BfRange(rmv));
                    let mut ranges = range_mappings;
                    let ghost mut j: nat = 0;
                    while ranges.len() > 0
                        invariant
                            secs == cmap_sections@,
                            k < secs.len(),
                            secs[k as int] == CMapSection::BfRange(rmv),
                            rm == rmv@,
                            sections_points(no_points(), secs, k) == Some(f0),
                            j <= rm.len(),
                            ranges@ == rm.subrange(j as int, rm.len() as int),
                            ranges_points(f0, rm, j) matches Some(g) && forall|n: u8| #[trigger] cmap.points(n) == g(n),
                        decreases ranges@.len(),
                    {
                        let ghost c0 = ranges@;
                        let ghost g0 = ranges_points(f0, rm, j)->0;
                        let ((start, end, code_len), dst_vec) = ranges.remove(0);
                        proof {
                            assert(c0[0] == rm[j as int]);
                            assert(ranges@ =~= rm.subrange(j as int + 1, rm.len() as int));
                        }
                        if end < start {
                            proof {
                                lemma_ranges_stop(f0, rm, j + 1, rm.len());
                                lemma_sections_stop(no_points(), secs, k + 1, secs.len());
                            }
                            return Err(UnicodeCMapError::InvalidCodeRange);
                        }
                        let ghost t = range_target(start, dst_vec);
                        if dst_vec.len() == 0 {
                            proof {
                                lemma_ranges_stop(f0, rm, j + 1, rm.len());
                                lemma_sections_stop(no_points(), secs, k + 1, secs.len());
                            }
                            return Err(UnicodeCMapError::InvalidCodeRange);
                        }
                        let target = if dst_vec.len() == 1 {
                            let mut dv = dst_vec;
                            let first = dv.remove(0);
                            if first.len() == 1 {
                                BfRangeTarget::UTF16CodePoint { offset: (first[0] as u32).wrapping_sub(start) }
                            } else {
                                BfRangeTarget::HexString(first)
                            }
                        } else {
                            BfRangeTarget::ArrayOfHexStrings(dst_vec)
                        };
                        assert(t == Some(target));
                        cmap.put(start, end, code_len, target);
                        proof {
                            j = j + 1;
                            assert(ranges_points(f0, rm, j) == Some(put_points(g0, start, end, code_len, target)));
                        }
                    }
                    proof {
                        assert(rm.subrange(j as int, rm.len() as int).len() == 0);
                    }
                },
            }
            proof {
                k = k + 1;
            }
        }
        proof {
            assert(secs.subrange(k as int, secs.len() as int).len() == 0);
        }
        Ok(cmap)
    }
}

/// Once putting ranges has met an invalid one, more ranges change nothing.
proof fn lemma_ranges_stop(m: spec_fn(u8) -> Map<u32, BfRangeTarget>, rm: Seq<((u32, u32, u8), Vec<Vec<u16>>)>, k: nat,
    n: nat)
    requires
        k <= n <= rm.len(),
        ranges_points(m, rm, k) is None,
    ensures
        ranges_points(m, rm, n) is None,
    decreases n,
{
    if n > k {
        lemma_ranges_stop(m, rm, k, (n - 1) as nat);
    }
}

/// Once putting sections has met an invalid range, more sections change
/// nothing.
proof fn lemma_sections_stop(m: spec_fn(u8) -> Map<u32, BfRangeTarget>, secs: Seq<CMapSection>, k: nat, n: nat)
    requires
        k <= n <= secs.len(),
        sections_points(m, secs, k) is None,
    ensures
        sections_points(m, secs, n) is None,
    decreases n,
{
    if n > k {
        lemma_sections_stop(m, secs, k, (n - 1) as nat);
    }
}

} // verus!
