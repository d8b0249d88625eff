//! What the public encoders and decoders promise of one another, stated over
//! the outcomes their contracts allow. An outcome here is any value that the
//! named function's `ensures` admits for the given input, so each statement
//! holds of every run of that function, an allocator refusal included.
use crate::binary::canonical::lemma_document_len;
use crate::binary::format::{
    encoded_size_is_the_sum_of_its_parts, lemma_raw_document_len, raw_document_len, size_by_parts,
};
use crate::binary::writer::len_matches;
use crate::binary::parse::{decode_complete, reaches_group_records, DecodeLimits, DecodeMode};
use crate::binary::reader::{
    borrowed_mode, decode_matches, default_limits, owned_mode, refused_reservation,
};
use crate::binary::roundtrip::{
    bytes_after_a_decoded_document_are_refused, complete_document_decodes_from_stream,
    decoded_document_is_rewritten_exactly, decoded_raw_document_reencodes, document_canonical,
    sprites_have_coordinates,
    is_limit_error, wider, wider_limits_keep_a_decode, written_document_decodes,
    written_raw_document_decodes,
};
use crate::error::{ErrorView, Result};
use crate::raw::{conv_matches, OwnedRawResourceManifest, RawManifestView, RawResourceManifest};
use crate::types::{ManifestView, ResourceManifest};
use crate::{encoding_outcome, raw_encoding_outcome, semantic_decode, semantic_decode_prefix};
use vstd::prelude::*;

verus! {

/// Reading back what `to_bytes` wrote for a document in canonical form gives
/// the document again, unless a decode limit stops the read or the allocator
/// refuses a reservation. `written` is an outcome of `to_bytes` for `m`, and
/// `r` an outcome of `from_bytes_with_limits` for the bytes it wrote.
pub proof fn written_document_reads_back(
    m: ManifestView,
    written: Result<Vec<u8>>,
    limits: DecodeLimits,
    r: Result<ResourceManifest>,
)
    requires
        document_canonical(m),
        encoding_outcome(m, written),
        written matches Ok(b) && conv_matches(
            r,
            semantic_decode(b@, limits),
            reaches_group_records(b@, limits, borrowed_mode()),
        ),
    ensures
        match r {
            Ok(d) => d@ == m,
            Err(e) => is_limit_error(e@.root()) || e@.root() is AllocationFailed,
        },
{
    lemma_document_len(m);
    written_document_decodes(m, limits);
}

/// Encoding a decoded raw document gives back exactly the bytes it was
/// decoded from, unless the allocator refuses room for the output. `raw` is
/// what a raw decode of `data` gave, and `r` an outcome of `raw_to_bytes`
/// for it.
pub proof fn decoded_raw_document_is_rewritten(
    data: Seq<u8>,
    limits: DecodeLimits,
    mode: DecodeMode,
    raw: RawManifestView,
    r: Result<Vec<u8>>,
)
    requires
        data.len() <= usize::MAX,
        decode_complete(data, limits, mode) == Ok::<RawManifestView, ErrorView>(raw),
        raw_encoding_outcome(raw, r),
    ensures
        match r {
            Ok(b) => b@ == data,
            Err(e) => e@ == (ErrorView::AllocationFailed { field: "encoded raw document"@ }),
        },
{
    decoded_raw_document_reencodes(data, limits, mode);
}

/// Reading back what `raw_to_bytes` wrote gives the raw document again, with
/// its flag bytes, signed values, unknown type bytes and non-UTF-8 strings as
/// they were, unless a decode limit stops the read or the allocator refuses a
/// reservation. `written` is an outcome of `raw_to_bytes` for `m`, and `r` an
/// outcome of `raw_from_bytes` for the bytes it wrote.
pub proof fn written_raw_document_reads_back(
    m: RawManifestView,
    written: Result<Vec<u8>>,
    r: Result<OwnedRawResourceManifest>,
)
    requires
        raw_encoding_outcome(m, written),
        written matches Ok(b) && conv_matches(
            r,
            decode_complete(b@, default_limits(), borrowed_mode()),
            reaches_group_records(b@, default_limits(), borrowed_mode()),
        ),
    ensures
        match r {
            Ok(d) => d@ == m,
            Err(e) => is_limit_error(e@.root()) || e@.root() is AllocationFailed,
        },
{
    lemma_raw_document_len(m);
    written_raw_document_decodes(m, default_limits(), borrowed_mode());
}

/// Raising decode limits never turns a successful decode into any failure
/// but a refusal of the allocator, and never changes what it gives. `r1` and
/// `r2` are outcomes of `from_bytes_with_limits` for `bytes` under `l1` and
/// under `l2`.
pub proof fn wider_limits_keep_a_result(
    bytes: Seq<u8>,
    l1: DecodeLimits,
    l2: DecodeLimits,
    r1: Result<ResourceManifest>,
    r2: Result<ResourceManifest>,
)
    requires
        wider(l1, l2),
        r1 is Ok,
        conv_matches(r1, semantic_decode(bytes, l1), reaches_group_records(bytes, l1, borrowed_mode())),
        conv_matches(r2, semantic_decode(bytes, l2), reaches_group_records(bytes, l2, borrowed_mode())),
    ensures
        match r2 {
            Ok(d) => d@ == r1->Ok_0@,
            Err(e) => e@.root() is AllocationFailed,
        },
{
    wider_limits_keep_a_decode(bytes, l1, l2);
}

/// Bytes after a complete raw document are refused with the located
/// trailing-data error, unless the allocator refuses a reservation first.
/// `r1` is a successful outcome of `raw_from_bytes_borrowed_with_limits` for
/// `bytes`, and `r2` an outcome of it for `bytes` followed by `rest`.
pub proof fn trailing_bytes_after_a_document_are_refused<'a>(
    bytes: Seq<u8>,
    rest: Seq<u8>,
    limits: DecodeLimits,
    r1: Result<RawResourceManifest<&'a [u8]>>,
    r2: Result<RawResourceManifest<&'a [u8]>>,
)
    requires
        rest.len() > 0,
        r1 is Ok,
        decode_matches(
            r1,
            decode_complete(bytes, limits, borrowed_mode()),
            bytes.len() as int,
            reaches_group_records(bytes, limits, borrowed_mode()),
        ),
        decode_matches(
            r2,
            decode_complete(bytes + rest, limits, borrowed_mode()),
            (bytes + rest).len() as int,
            reaches_group_records(bytes + rest, limits, borrowed_mode()),
        ),
    ensures
        r2 matches Err(e) && (e@ == ErrorView::DecodeContext {
            offset: bytes.len() as u64,
            context: "document"@,
            field: "trailing bytes"@,
            source: Box::new(ErrorView::TrailingData { remaining: rest.len() as usize }),
        } || refused_reservation(e@, (bytes + rest).len() as int, false)),
{
    bytes_after_a_decoded_document_are_refused(bytes, rest, limits, borrowed_mode());
}

/// Writing back a semantic document decoded from `bytes` gives exactly
/// `bytes` when every sprite of the document has both coordinates, unless
/// the allocator refuses room for the output. `r` is a successful outcome of
/// `from_bytes_with_limits` for `bytes`, and `written` an outcome of
/// `to_bytes` for what it gave.
pub proof fn decoded_document_is_written_back_exactly(
    bytes: Seq<u8>,
    limits: DecodeLimits,
    r: Result<ResourceManifest>,
    written: Result<Vec<u8>>,
)
    requires
        bytes.len() <= usize::MAX,
        r is Ok,
        conv_matches(r, semantic_decode(bytes, limits), reaches_group_records(bytes, limits, borrowed_mode())),
        sprites_have_coordinates(r->Ok_0@),
        encoding_outcome(r->Ok_0@, written),
    ensures
        match written {
            Ok(b) => b@ == bytes,
            Err(e) => e@ == (ErrorView::AllocationFailed { field: "encoded document"@ }),
        },
{
    decoded_document_is_rewritten_exactly(bytes, limits);
}

/// A document that `from_bytes_with_limits` decodes completely is decoded to
/// the same semantic document by `from_reader_with_limits` from a stream
/// that holds it followed by any bytes, unless a limit of the stream decode
/// stops it or the allocator refuses a reservation. `r1` and `r2` are
/// outcomes of the two functions.
pub proof fn complete_document_reads_the_same_from_a_stream(
    bytes: Seq<u8>,
    rest: Seq<u8>,
    limits: DecodeLimits,
    r1: Result<ResourceManifest>,
    r2: Result<ResourceManifest>,
)
    requires
        r1 is Ok,
        conv_matches(r1, semantic_decode(bytes, limits), reaches_group_records(bytes, limits, borrowed_mode())),
        conv_matches(
            r2,
            semantic_decode_prefix(bytes + rest, limits),
            reaches_group_records(bytes + rest, limits, owned_mode()),
        ),
    ensures
        match r2 {
            Ok(d) => d@ == r1->Ok_0@,
            Err(e) => is_limit_error(e@.root()) || e@.root() is AllocationFailed,
        },
{
    complete_document_decodes_from_stream(bytes, rest, limits);
}

/// The length that `raw_encoded_len` gives, and the number of bytes that
/// `raw_to_bytes` writes, is the sum of the parts of the document: 8 header
/// bytes, 15 per group, 4 per subgroup, 49 per resource, and 4 plus the
/// length of every subgroup ID and of every string whose flag byte is 1.
/// `n` and `written` are outcomes of the two functions for `m`.
pub proof fn encoded_length_is_the_sum_of_its_parts(
    m: RawManifestView,
    n: Result<usize>,
    written: Result<Vec<u8>>,
)
    requires
        len_matches(n, raw_document_len(m)),
        raw_encoding_outcome(m, written),
    ensures
        n matches Ok(x) ==> x == size_by_parts(m),
        written matches Ok(b) ==> b@.len() == size_by_parts(m),
{
    encoded_size_is_the_sum_of_its_parts(m);
}

} // verus!
