# newton-manifest

Reader, writer and validator for the binary `RESOURCES.NEWTON` manifests of
Plants vs. Zombies 2, written in Verus. The decoder, the encoder, the raw and
semantic models and the validation profiles are verified against
mathematical specifications.

## Layout

- `src/types.rs`: the semantic model (`ResourceManifest` and its groups and
  resources) with its mathematical views.
- `src/raw.rs`: the wire-faithful raw model, the allocation estimate made
  before building semantic records, and the conversion from raw to semantic
  records with its specification.
- `src/binary/format.rs`: the bytes of a raw document and the encoder's
  length computation, stated as spec functions.
- `src/binary/parse.rs`: the decoder stated as a parser over the input bytes,
  including its limits and error locations.
- `src/binary/reader.rs`, `src/binary/writer.rs`: the decoder and the
  encoders, proved against those specifications.
- `src/binary/canonical.rs`: how a semantic document is laid out as a raw
  document.
- `src/binary/roundtrip.rs`: the round-trip laws between decoding and
  encoding, for raw and semantic documents.
- `src/properties.rs`: the round trips, the effect of wider limits, the
  stream decode of a complete document, and the encoded length as a sum of
  its parts, stated over every outcome that the public encoders and decoders
  may give.
- `src/validation.rs`: the runtime and canonical validation profiles, the
  exact list of issues each reports, and laws relating them.
- `src/error.rs`, `src/memory.rs`, `src/text.rs`: errors, fallible
  reservations, decimal text.
- `app/`: `Read`/`Write` stream entry points, which read a stream in growing
  steps and decode after each, Serde-ready copies of the semantic model, and
  an error type with `Display`.

## Round trips

Decoding a raw document and encoding it again gives back exactly the input
bytes; encoding a raw document and decoding it gives back the document unless
a decode limit stops it. A semantic document whose optional fields are in the
form that decoding produces comes back unchanged from `to_bytes` and
`from_bytes`, again unless a decode limit stops it. A semantic document
decoded from bytes whose sprites all have both coordinates is written back as
exactly those bytes.

## Allocation

Every vector and string reservation is fallible. Converting an owned raw
document moves its strings into the semantic document without copying them. A decoder reports a refusal
of the allocator only once it has reserved room for at least one group
record; before that, and on any input that needs no reservation, its outcome
is exactly the specified one. A raw decoder reports such a refusal at the
field being read, like every other decode error.
