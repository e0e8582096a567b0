//! Content streams: sequences of operators with their operands.

use vstd::prelude::*;
use crate::error::{Error, ParseError};
use crate::content_parser::{content, operations_view, spec_content};
use crate::object::Stream;
use crate::object::{Object, PdfValue, values_of};
use crate::writer::{Writer, value_text};

verus! {

/// One operator of a content stream with its operands.
#[derive(Debug)]
pub struct Operation {
    pub operator: String,
    pub operands: Vec<Object>,
}

/// The operations of a content stream.
#[derive(Debug)]
pub struct Content {
    pub operations: Vec<Operation>,
}

impl Operation {
    pub fn new(operator: &str, operands: Vec<Object>) -> (r: Operation)
        ensures
            r.operator@ == operator@,
            r.operands == operands,
    {
        Operation { operator: operator.to_owned(), operands }
    }
}

/// The first `n` operands, each followed by a space.
pub open spec fn operands_text(operands: Seq<PdfValue>, n: nat) -> Seq<u8>
    decreases n,
{
    if n == 0 || n > operands.len() {
        Seq::empty()
    } else {
        operands_text(operands, (n - 1) as nat) + value_text(operands[n - 1]) + seq![32u8]
    }
}

/// An operation as written: its operands, then the operator and a line feed.
pub open spec fn operation_text(operands: Seq<PdfValue>, operator: Seq<char>) -> Seq<u8> {
    operands_text(operands, operands.len()) + vstd::utf8::encode_utf8(operator) + seq![10u8]
}

/// The first `n` operations of a content stream, as written.
pub open spec fn operations_text(ops: Seq<Operation>, n: nat) -> Seq<u8>
    decreases n,
{
    if n == 0 || n > ops.len() {
        Seq::empty()
    } else {
        operations_text(ops, (n - 1) as nat) + operation_text(values_of(ops[n - 1].operands@), ops[n - 1].operator@)
    }
}

impl Content {
    /// Encode content operations.
    pub fn encode(&self) -> (r: Result<Vec<u8>, Error>)
        ensures
            r matches Ok(bytes) && bytes@ == operations_text(self.operations@, self.operations@.len()),
    {
        let mut buffer: Vec<u8> = Vec::new();
        let mut i: usize = 0;
        while i < self.operations.len()
            invariant
                i <= self.operations@.len(),
                buffer@ == operations_text(self.operations@, i as nat),
            decreases self.operations@.len() - i,
        {
            let operation = &self.operations[i];
            let ghost before = buffer@;
            let ghost operands = values_of(operation.operands@);
            let mut j: usize = 0;
            while j < operation.operands.len()
                invariant
                    j <= operation.operands@.len(),
                    operands == values_of(operation.operands@),
                    buffer@ == before + operands_text(operands, j as nat),
                decreases operation.operands@.len() - j,
            {
                Writer::write_object(&mut buffer, &operation.operands[j]);
                buffer.push(32u8);
                j = j + 1;
                assert(buffer@ =~= before + operands_text(operands, j as nat));
            }
            let op = operation.operator.as_str().as_bytes();
            let mut k: usize = 0;
            let ghost mid = buffer@;
            while k < op.len()
                invariant
                    k <= op@.len(),
                    buffer@ == mid + op@.subrange(0, k as int),
                decreases op@.len() - k,
            {
                buffer.push(op[k]);
                k = k + 1;
                assert(buffer@ =~= mid + op@.subrange(0, k as int));
            }
            buffer.push(10u8);
            i = i + 1;
            assert(op@.subrange(0, k as int) =~= op@);
            assert(buffer@ =~= operations_text(self.operations@, i as nat));
        }
        Ok(buffer)
    }

    /// Decode content operations.
    pub fn decode(data: &[u8]) -> (r: Result<Content, Error>)
        ensures
            r matches Ok(c) && operations_view(c.operations@) == spec_content(data@),
    {
        match content(data) {
            Some(c) => Ok(c),
            None => Err(Error::Parse(ParseError::InvalidContentStream)),
        }
    }
}

impl Stream {
    /// Decode content after decoding all stream filters.
    pub fn decode_content(&self) -> (r: Result<Content, Error>)
        ensures
            r matches Ok(c) && operations_view(c.operations@) == spec_content(self.content@),
    {
        Content::decode(self.content.as_slice())
    }
}

} // verus!
