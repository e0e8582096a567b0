//! The names that the library looks up in dictionaries, as bytes.

use vstd::prelude::*;

verus! {

/// The bytes of `Type`.
pub open spec fn type_bytes() -> Seq<u8> {
    seq![84u8, 121, 112, 101]
}

/// `Type`, as bytes.
pub fn type_key() -> (r: Vec<u8>)
    ensures
        r@ == type_bytes(),
{
    let r = vec![84u8, 121, 112, 101];
    assert(r@ =~= type_bytes());
    r
}

/// The bytes of `Linearized`.
pub open spec fn linearized_bytes() -> Seq<u8> {
    seq![76u8, 105, 110, 101, 97, 114, 105, 122, 101, 100]
}

/// `Linearized`, as bytes.
pub fn linearized_key() -> (r: Vec<u8>)
    ensures
        r@ == linearized_bytes(),
{
    let r = vec![76u8, 105, 110, 101, 97, 114, 105, 122, 101, 100];
    assert(r@ =~= linearized_bytes());
    r
}

/// The bytes of `Length`.
pub open spec fn length_bytes() -> Seq<u8> {
    seq![76u8, 101, 110, 103, 116, 104]
}

/// `Length`, as bytes.
pub fn length_key() -> (r: Vec<u8>)
    ensures
        r@ == length_bytes(),
{
    let r = vec![76u8, 101, 110, 103, 116, 104];
    assert(r@ =~= length_bytes());
    r
}

/// The bytes of `Filter`.
pub open spec fn filter_bytes() -> Seq<u8> {
    seq![70u8, 105, 108, 116, 101, 114]
}

/// `Filter`, as bytes.
pub fn filter_key() -> (r: Vec<u8>)
    ensures
        r@ == filter_bytes(),
{
    let r = vec![70u8, 105, 108, 116, 101, 114];
    assert(r@ =~= filter_bytes());
    r
}

/// The bytes of `DecodeParms`.
pub open spec fn decode_parms_bytes() -> Seq<u8> {
    seq![68u8, 101, 99, 111, 100, 101, 80, 97, 114, 109, 115]
}

/// `DecodeParms`, as bytes.
pub fn decode_parms_key() -> (r: Vec<u8>)
    ensures
        r@ == decode_parms_bytes(),
{
    let r = vec![68u8, 101, 99, 111, 100, 101, 80, 97, 114, 109, 115];
    assert(r@ =~= decode_parms_bytes());
    r
}

/// The bytes of `Size`.
pub open spec fn size_bytes() -> Seq<u8> {
    seq![83u8, 105, 122, 101]
}

/// `Size`, as bytes.
pub fn size_key() -> (r: Vec<u8>)
    ensures
        r@ == size_bytes(),
{
    let r = vec![83u8, 105, 122, 101];
    assert(r@ =~= size_bytes());
    r
}

/// The bytes of `Index`.
pub open spec fn index_bytes() -> Seq<u8> {
    seq![73u8, 110, 100, 101, 120]
}

/// `Index`, as bytes.
pub fn index_key() -> (r: Vec<u8>)
    ensures
        r@ == index_bytes(),
{
    let r = vec![73u8, 110, 100, 101, 120];
    assert(r@ =~= index_bytes());
    r
}

/// The bytes of `W`.
pub open spec fn w_bytes() -> Seq<u8> {
    seq![87u8]
}

/// `W`, as bytes.
pub fn w_key() -> (r: Vec<u8>)
    ensures
        r@ == w_bytes(),
{
    let r = vec![87u8];
    assert(r@ =~= w_bytes());
    r
}

/// The bytes of `Predictor`.
pub open spec fn predictor_bytes() -> Seq<u8> {
    seq![80u8, 114, 101, 100, 105, 99, 116, 111, 114]
}

/// `Predictor`, as bytes.
pub fn predictor_key() -> (r: Vec<u8>)
    ensures
        r@ == predictor_bytes(),
{
    let r = vec![80u8, 114, 101, 100, 105, 99, 116, 111, 114];
    assert(r@ =~= predictor_bytes());
    r
}

/// The bytes of `Columns`.
pub open spec fn columns_bytes() -> Seq<u8> {
    seq![67u8, 111, 108, 117, 109, 110, 115]
}

/// `Columns`, as bytes.
pub fn columns_key() -> (r: Vec<u8>)
    ensures
        r@ == columns_bytes(),
{
    let r = vec![67u8, 111, 108, 117, 109, 110, 115];
    assert(r@ =~= columns_bytes());
    r
}

/// The bytes of `Colors`.
pub open spec fn colors_bytes() -> Seq<u8> {
    seq![67u8, 111, 108, 111, 114, 115]
}

/// `Colors`, as bytes.
pub fn colors_key() -> (r: Vec<u8>)
    ensures
        r@ == colors_bytes(),
{
    let r = vec![67u8, 111, 108, 111, 114, 115];
    assert(r@ =~= colors_bytes());
    r
}

/// The bytes of `BitsPerComponent`.
pub open spec fn bits_per_component_bytes() -> Seq<u8> {
    seq![66u8, 105, 116, 115, 80, 101, 114, 67, 111, 109, 112, 111, 110, 101, 110, 116]
}

/// `BitsPerComponent`, as bytes.
pub fn bits_per_component_key() -> (r: Vec<u8>)
    ensures
        r@ == bits_per_component_bytes(),
{
    let r = vec![66u8, 105, 116, 115, 80, 101, 114, 67, 111, 109, 112, 111, 110, 101, 110, 116];
    assert(r@ =~= bits_per_component_bytes());
    r
}

/// The bytes of `EarlyChange`.
pub open spec fn early_change_bytes() -> Seq<u8> {
    seq![69u8, 97, 114, 108, 121, 67, 104, 97, 110, 103, 101]
}

/// `EarlyChange`, as bytes.
pub fn early_change_key() -> (r: Vec<u8>)
    ensures
        r@ == early_change_bytes(),
{
    let r = vec![69u8, 97, 114, 108, 121, 67, 104, 97, 110, 103, 101];
    assert(r@ =~= early_change_bytes());
    r
}

/// The bytes of `XRef`.
pub open spec fn xref_bytes() -> Seq<u8> {
    seq![88u8, 82, 101, 102]
}

/// `XRef`, as bytes.
pub fn xref_key() -> (r: Vec<u8>)
    ensures
        r@ == xref_bytes(),
{
    let r = vec![88u8, 82, 101, 102];
    assert(r@ =~= xref_bytes());
    r
}

/// The bytes of `FlateDecode`.
pub open spec fn flate_decode_bytes() -> Seq<u8> {
    seq![70u8, 108, 97, 116, 101, 68, 101, 99, 111, 100, 101]
}

/// `FlateDecode`, as bytes.
pub fn flate_decode_key() -> (r: Vec<u8>)
    ensures
        r@ == flate_decode_bytes(),
{
    let r = vec![70u8, 108, 97, 116, 101, 68, 101, 99, 111, 100, 101];
    assert(r@ =~= flate_decode_bytes());
    r
}

/// The bytes of `LZWDecode`.
pub open spec fn lzw_decode_bytes() -> Seq<u8> {
    seq![76u8, 90, 87, 68, 101, 99, 111, 100, 101]
}

/// `LZWDecode`, as bytes.
pub fn lzw_decode_key() -> (r: Vec<u8>)
    ensures
        r@ == lzw_decode_bytes(),
{
    let r = vec![76u8, 90, 87, 68, 101, 99, 111, 100, 101];
    assert(r@ =~= lzw_decode_bytes());
    r
}

/// The bytes of `BrotliDecode`.
pub open spec fn brotli_decode_bytes() -> Seq<u8> {
    seq![66u8, 114, 111, 116, 108, 105, 68, 101, 99, 111, 100, 101]
}

/// `BrotliDecode`, as bytes.
pub fn brotli_decode_key() -> (r: Vec<u8>)
    ensures
        r@ == brotli_decode_bytes(),
{
    let r = vec![66u8, 114, 111, 116, 108, 105, 68, 101, 99, 111, 100, 101];
    assert(r@ =~= brotli_decode_bytes());
    r
}

/// The bytes of `ASCIIHexDecode`.
pub open spec fn ascii_hex_decode_bytes() -> Seq<u8> {
    seq![65u8, 83, 67, 73, 73, 72, 101, 120, 68, 101, 99, 111, 100, 101]
}

/// `ASCIIHexDecode`, as bytes.
pub fn ascii_hex_decode_key() -> (r: Vec<u8>)
    ensures
        r@ == ascii_hex_decode_bytes(),
{
    let r = vec![65u8, 83, 67, 73, 73, 72, 101, 120, 68, 101, 99, 111, 100, 101];
    assert(r@ =~= ascii_hex_decode_bytes());
    r
}

/// The bytes of `ASCII85Decode`.
pub open spec fn ascii85_decode_bytes() -> Seq<u8> {
    seq![65u8, 83, 67, 73, 73, 56, 53, 68, 101, 99, 111, 100, 101]
}

/// `ASCII85Decode`, as bytes.
pub fn ascii85_decode_key() -> (r: Vec<u8>)
    ensures
        r@ == ascii85_decode_bytes(),
{
    let r = vec![65u8, 83, 67, 73, 73, 56, 53, 68, 101, 99, 111, 100, 101];
    assert(r@ =~= ascii85_decode_bytes());
    r
}

/// The bytes of `Crypt`.
pub open spec fn crypt_bytes() -> Seq<u8> {
    seq![67u8, 114, 121, 112, 116]
}

/// `Crypt`, as bytes.
pub fn crypt_key() -> (r: Vec<u8>)
    ensures
        r@ == crypt_bytes(),
{
    let r = vec![67u8, 114, 121, 112, 116];
    assert(r@ =~= crypt_bytes());
    r
}

/// The bytes of `Font`.
pub open spec fn font_bytes() -> Seq<u8> {
    seq![70u8, 111, 110, 116]
}

/// `Font`, as bytes.
pub fn font_key() -> (r: Vec<u8>)
    ensures
        r@ == font_bytes(),
{
    let r = vec![70u8, 111, 110, 116];
    assert(r@ =~= font_bytes());
    r
}

/// The bytes of `Root`.
pub open spec fn root_bytes() -> Seq<u8> {
    seq![82u8, 111, 111, 116]
}

/// `Root`, as bytes.
pub fn root_key() -> (r: Vec<u8>)
    ensures
        r@ == root_bytes(),
{
    let r = vec![82u8, 111, 111, 116];
    assert(r@ =~= root_bytes());
    r
}

/// The bytes of `Info`.
pub open spec fn info_bytes() -> Seq<u8> {
    seq![73u8, 110, 102, 111]
}

/// `Info`, as bytes.
pub fn info_key() -> (r: Vec<u8>)
    ensures
        r@ == info_bytes(),
{
    let r = vec![73u8, 110, 102, 111];
    assert(r@ =~= info_bytes());
    r
}

/// The bytes of `Prev`.
pub open spec fn prev_bytes() -> Seq<u8> {
    seq![80u8, 114, 101, 118]
}

/// `Prev`, as bytes.
pub fn prev_key() -> (r: Vec<u8>)
    ensures
        r@ == prev_bytes(),
{
    let r = vec![80u8, 114, 101, 118];
    assert(r@ =~= prev_bytes());
    r
}

/// The bytes of `ID`.
pub open spec fn id_bytes() -> Seq<u8> {
    seq![73u8, 68]
}

/// `ID`, as bytes.
pub fn id_key() -> (r: Vec<u8>)
    ensures
        r@ == id_bytes(),
{
    let r = vec![73u8, 68];
    assert(r@ =~= id_bytes());
    r
}

/// The bytes of `Encrypt`.
pub open spec fn encrypt_bytes() -> Seq<u8> {
    seq![69u8, 110, 99, 114, 121, 112, 116]
}

/// `Encrypt`, as bytes.
pub fn encrypt_key() -> (r: Vec<u8>)
    ensures
        r@ == encrypt_bytes(),
{
    let r = vec![69u8, 110, 99, 114, 121, 112, 116];
    assert(r@ =~= encrypt_bytes());
    r
}

/// The bytes of `EncryptMetadata`.
pub open spec fn encrypt_metadata_bytes() -> Seq<u8> {
    seq![69u8, 110, 99, 114, 121, 112, 116, 77, 101, 116, 97, 100, 97, 116, 97]
}

/// `EncryptMetadata`, as bytes.
pub fn encrypt_metadata_key() -> (r: Vec<u8>)
    ensures
        r@ == encrypt_metadata_bytes(),
{
    let r = vec![69u8, 110, 99, 114, 121, 112, 116, 77, 101, 116, 97, 100, 97, 116, 97];
    assert(r@ =~= encrypt_metadata_bytes());
    r
}

/// The bytes of `O`.
pub open spec fn o_bytes() -> Seq<u8> {
    seq![79u8]
}

/// `O`, as bytes.
pub fn o_key() -> (r: Vec<u8>)
    ensures
        r@ == o_bytes(),
{
    let r = vec![79u8];
    assert(r@ =~= o_bytes());
    r
}

/// The bytes of `U`.
pub open spec fn u_bytes() -> Seq<u8> {
    seq![85u8]
}

/// `U`, as bytes.
pub fn u_key() -> (r: Vec<u8>)
    ensures
        r@ == u_bytes(),
{
    let r = vec![85u8];
    assert(r@ =~= u_bytes());
    r
}

/// The bytes of `P`.
pub open spec fn p_bytes() -> Seq<u8> {
    seq![80u8]
}

/// `P`, as bytes.
pub fn p_key() -> (r: Vec<u8>)
    ensures
        r@ == p_bytes(),
{
    let r = vec![80u8];
    assert(r@ =~= p_bytes());
    r
}

/// The bytes of `R`.
pub open spec fn r_bytes() -> Seq<u8> {
    seq![82u8]
}

/// `R`, as bytes.
pub fn r_key() -> (r: Vec<u8>)
    ensures
        r@ == r_bytes(),
{
    let r = vec![82u8];
    assert(r@ =~= r_bytes());
    r
}

/// The bytes of `OE`.
pub open spec fn oe_bytes() -> Seq<u8> {
    seq![79u8, 69]
}

/// `OE`, as bytes.
pub fn oe_key() -> (r: Vec<u8>)
    ensures
        r@ == oe_bytes(),
{
    let r = vec![79u8, 69];
    assert(r@ =~= oe_bytes());
    r
}

/// The bytes of `UE`.
pub open spec fn ue_bytes() -> Seq<u8> {
    seq![85u8, 69]
}

/// `UE`, as bytes.
pub fn ue_key() -> (r: Vec<u8>)
    ensures
        r@ == ue_bytes(),
{
    let r = vec![85u8, 69];
    assert(r@ =~= ue_bytes());
    r
}

/// The bytes of `StmF`.
pub open spec fn stm_f_bytes() -> Seq<u8> {
    seq![83u8, 116, 109, 70]
}

/// `StmF`, as bytes.
pub fn stm_f_key() -> (r: Vec<u8>)
    ensures
        r@ == stm_f_bytes(),
{
    let r = vec![83u8, 116, 109, 70];
    assert(r@ =~= stm_f_bytes());
    r
}

/// The bytes of `StrF`.
pub open spec fn str_f_bytes() -> Seq<u8> {
    seq![83u8, 116, 114, 70]
}

/// `StrF`, as bytes.
pub fn str_f_key() -> (r: Vec<u8>)
    ensures
        r@ == str_f_bytes(),
{
    let r = vec![83u8, 116, 114, 70];
    assert(r@ =~= str_f_bytes());
    r
}

/// The bytes of `CF`.
pub open spec fn cf_bytes() -> Seq<u8> {
    seq![67u8, 70]
}

/// `CF`, as bytes.
pub fn cf_key() -> (r: Vec<u8>)
    ensures
        r@ == cf_bytes(),
{
    let r = vec![67u8, 70];
    assert(r@ =~= cf_bytes());
    r
}

/// The bytes of `CFM`.
pub open spec fn cfm_bytes() -> Seq<u8> {
    seq![67u8, 70, 77]
}

/// `CFM`, as bytes.
pub fn cfm_key() -> (r: Vec<u8>)
    ensures
        r@ == cfm_bytes(),
{
    let r = vec![67u8, 70, 77];
    assert(r@ =~= cfm_bytes());
    r
}

/// The bytes of `V2`.
pub open spec fn v2_bytes() -> Seq<u8> {
    seq![86u8, 50]
}

/// `V2`, as bytes.
pub fn v2_key() -> (r: Vec<u8>)
    ensures
        r@ == v2_bytes(),
{
    let r = vec![86u8, 50];
    assert(r@ =~= v2_bytes());
    r
}

/// The bytes of `None`.
pub open spec fn identity_method_bytes() -> Seq<u8> {
    seq![78u8, 111, 110, 101]
}

/// `None`, as bytes.
pub fn identity_method_key() -> (r: Vec<u8>)
    ensures
        r@ == identity_method_bytes(),
{
    let r = vec![78u8, 111, 110, 101];
    assert(r@ =~= identity_method_bytes());
    r
}

/// The bytes of `Standard`.
pub open spec fn standard_bytes() -> Seq<u8> {
    seq![83u8, 116, 97, 110, 100, 97, 114, 100]
}

/// `Standard`, as bytes.
pub fn standard_key() -> (r: Vec<u8>)
    ensures
        r@ == standard_bytes(),
{
    let r = vec![83u8, 116, 97, 110, 100, 97, 114, 100];
    assert(r@ =~= standard_bytes());
    r
}

/// The bytes of `Name`.
pub open spec fn name_entry_bytes() -> Seq<u8> {
    seq![78u8, 97, 109, 101]
}

/// `Name`, as bytes.
pub fn name_entry_key() -> (r: Vec<u8>)
    ensures
        r@ == name_entry_bytes(),
{
    let r = vec![78u8, 97, 109, 101];
    assert(r@ =~= name_entry_bytes());
    r
}

/// The bytes of `Metadata`.
pub open spec fn metadata_bytes() -> Seq<u8> {
    seq![77u8, 101, 116, 97, 100, 97, 116, 97]
}

/// `Metadata`, as bytes.
pub fn metadata_key() -> (r: Vec<u8>)
    ensures
        r@ == metadata_bytes(),
{
    let r = vec![77u8, 101, 116, 97, 100, 97, 116, 97];
    assert(r@ =~= metadata_bytes());
    r
}

/// The bytes of `ObjStm`.
pub open spec fn obj_stm_bytes() -> Seq<u8> {
    seq![79u8, 98, 106, 83, 116, 109]
}

/// `ObjStm`, as bytes.
pub fn obj_stm_key() -> (r: Vec<u8>)
    ensures
        r@ == obj_stm_bytes(),
{
    let r = vec![79u8, 98, 106, 83, 116, 109];
    assert(r@ =~= obj_stm_bytes());
    r
}

/// The bytes of `XRefStm`.
pub open spec fn xref_stm_bytes() -> Seq<u8> {
    seq![88u8, 82, 101, 102, 83, 116, 109]
}

/// `XRefStm`, as bytes.
pub fn xref_stm_key() -> (r: Vec<u8>)
    ensures
        r@ == xref_stm_bytes(),
{
    let r = vec![88u8, 82, 101, 102, 83, 116, 109];
    assert(r@ =~= xref_stm_bytes());
    r
}

/// The bytes of `N`.
pub open spec fn n_count_bytes() -> Seq<u8> {
    seq![78u8]
}

/// `N`, as bytes.
pub fn n_count_key() -> (r: Vec<u8>)
    ensures
        r@ == n_count_bytes(),
{
    let r = vec![78u8];
    assert(r@ =~= n_count_bytes());
    r
}

/// The bytes of `First`.
pub open spec fn first_bytes() -> Seq<u8> {
    seq![70u8, 105, 114, 115, 116]
}

/// `First`, as bytes.
pub fn first_key() -> (r: Vec<u8>)
    ensures
        r@ == first_bytes(),
{
    let r = vec![70u8, 105, 114, 115, 116];
    assert(r@ =~= first_bytes());
    r
}

/// The bytes of `Pages`.
pub open spec fn pages_bytes() -> Seq<u8> {
    seq![80u8, 97, 103, 101, 115]
}

/// `Pages`, as bytes.
pub fn pages_key() -> (r: Vec<u8>)
    ensures
        r@ == pages_bytes(),
{
    let r = vec![80u8, 97, 103, 101, 115];
    assert(r@ =~= pages_bytes());
    r
}

/// The bytes of `Page`.
pub open spec fn page_bytes() -> Seq<u8> {
    seq![80u8, 97, 103, 101]
}

/// `Page`, as bytes.
pub fn page_key() -> (r: Vec<u8>)
    ensures
        r@ == page_bytes(),
{
    let r = vec![80u8, 97, 103, 101];
    assert(r@ =~= page_bytes());
    r
}

/// The bytes of `Kids`.
pub open spec fn kids_bytes() -> Seq<u8> {
    seq![75u8, 105, 100, 115]
}

/// `Kids`, as bytes.
pub fn kids_key() -> (r: Vec<u8>)
    ensures
        r@ == kids_bytes(),
{
    let r = vec![75u8, 105, 100, 115];
    assert(r@ =~= kids_bytes());
    r
}

/// The bytes of `Contents`.
pub open spec fn contents_bytes() -> Seq<u8> {
    seq![67u8, 111, 110, 116, 101, 110, 116, 115]
}

/// `Contents`, as bytes.
pub fn contents_key() -> (r: Vec<u8>)
    ensures
        r@ == contents_bytes(),
{
    let r = vec![67u8, 111, 110, 116, 101, 110, 116, 115];
    assert(r@ =~= contents_bytes());
    r
}

/// The bytes of `Resources`.
pub open spec fn resources_bytes() -> Seq<u8> {
    seq![82u8, 101, 115, 111, 117, 114, 99, 101, 115]
}

/// `Resources`, as bytes.
pub fn resources_key() -> (r: Vec<u8>)
    ensures
        r@ == resources_bytes(),
{
    let r = vec![82u8, 101, 115, 111, 117, 114, 99, 101, 115];
    assert(r@ =~= resources_bytes());
    r
}

/// The bytes of `Parent`.
pub open spec fn parent_bytes() -> Seq<u8> {
    seq![80u8, 97, 114, 101, 110, 116]
}

/// `Parent`, as bytes.
pub fn parent_key() -> (r: Vec<u8>)
    ensures
        r@ == parent_bytes(),
{
    let r = vec![80u8, 97, 114, 101, 110, 116];
    assert(r@ =~= parent_bytes());
    r
}

/// The bytes of `Annots`.
pub open spec fn annots_bytes() -> Seq<u8> {
    seq![65u8, 110, 110, 111, 116, 115]
}

/// `Annots`, as bytes.
pub fn annots_key() -> (r: Vec<u8>)
    ensures
        r@ == annots_bytes(),
{
    let r = vec![65u8, 110, 110, 111, 116, 115];
    assert(r@ =~= annots_bytes());
    r
}

/// The bytes of `Count`.
pub open spec fn count_bytes() -> Seq<u8> {
    seq![67u8, 111, 117, 110, 116]
}

/// `Count`, as bytes.
pub fn count_key() -> (r: Vec<u8>)
    ensures
        r@ == count_bytes(),
{
    let r = vec![67u8, 111, 117, 110, 116];
    assert(r@ =~= count_bytes());
    r
}

/// The bytes of `Producer`.
pub open spec fn producer_bytes() -> Seq<u8> {
    seq![80u8, 114, 111, 100, 117, 99, 101, 114]
}

/// `Producer`, as bytes.
pub fn producer_key() -> (r: Vec<u8>)
    ensures
        r@ == producer_bytes(),
{
    let r = vec![80u8, 114, 111, 100, 117, 99, 101, 114];
    assert(r@ =~= producer_bytes());
    r
}

} // verus!
