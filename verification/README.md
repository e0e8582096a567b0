# lopdf (verified)

A library for reading, editing and writing PDF documents, written in Verus:
each function of the library states what it does in `requires`/`ensures`
clauses over mathematical models (`Seq`, `Map`, spec functions and views),
and Verus proves the code against them.

## Layout

- `src/` — the verified library.
  - `object.rs`, `names.rs`, `error.rs`: the object model (`Object`,
    `Dictionary`, `Stream`), their values (`PdfValue`) and the errors.
  - `parser.rs`, `content_parser.rs`, `file_structure.rs`: reading objects,
    content streams, headers, cross-reference tables and trailers from bytes.
  - `reader.rs`, `xref.rs`, `xref_stream.rs`, `object_stream.rs`: loading a
    document: the cross-reference sections along the /Prev chain, the objects
    they locate, object streams, encrypted files.
  - `decode.rs`, `filters/`: stream filters (Flate, LZW, Brotli, ASCII85,
    ASCIIHex) and PNG predictors, each held to an optional output limit.
  - `encryption.rs`, `encryption/`: the standard security handler (RC4,
    revisions 2 to 4): keys, password checks, encrypting and decrypting.
  - `document.rs`, `pages.rs`, `processor.rs`: the document, its page tree,
    page contents and annotations, traversal, pruning, renumbering,
    compression.
  - `writer.rs`, `format.rs`, `round_trip.rs`: writing objects and files,
    and what reading gives back of a write.
  - `encodings/`: one-byte encodings, UTF-16, and ToUnicode maps.
  - `text.rs`: the fonts of a page, and the text of content streams:
    decoding the strings that text operators show into chunks, one per run
    of text in one font, and replacing a text by another in the font's
    encoding.
- `tests/` — tests on concrete values, run against the compiled library.
- `app/` — loading and saving files, the input and output around the
  library.

Calls into outside crates (flate2, weezl, brotli-decompressor, md-5, rand,
encoding_rs, rangemap) go through small trusted wrappers whose contracts
state what the crates' sources and documentation give; where a result takes
pages to state (compressed bytes, an MD5 digest, decoded LZW or Brotli data)
it is named by an uninterpreted spec function, and the library's contracts
speak of that name.
