# datom

Datom is serialization and deserialization of positional typed data. A type
reads its own context from a walk over the source text and writes its own
context into a walk that builds the text; no document tree is built and the
text holds no field names or self-describing tags.

The library is written in Verus. Each reading and writing step states, over
a mathematical model of the walk, exactly what it consumes or produces, and
the laws that tie the two halves together are proved.

## Layout

- `src/lexis.rs`, `src/parser.rs`: the lexical rules (white space, trivia,
  bare symbols, shapes, curly legacy strings) as spec functions, and the one
  parser that follows them.
- `src/indentation.rs`: common-indentation stripping of multiline legacy text.
- `src/pretty.rs`: the bare-versus-curly decision and legacy escaping.
- `src/decimal.rs`: decimal text of integers, read and written.
- `src/expectation.rs`: the shape vocabulary and shape probes.
- `src/codec.rs`: the reading and writing walks, their ghost states, and the
  public driver (`DatomSource`, `DatomText`, `DecodeWalk`, `EncodeWalk`).
- `src/scalars.rs`, `src/collections.rs`, `src/maps.rs`: the contexts of
  strings, booleans, integers, vectors, optional values and maps.
- `src/messages.rs`: the diagnostic sentence of each refusal.
- `src/round_trip.rs`: a value written where a value stands reads back as
  itself; documents read back; bare text survives writing, probing and
  reading unchanged.
- `src/canonical.rs`: what a value writes depends on its deep view alone, so
  a document read back writes itself again.
- `src/meaning.rs`: the parenthesized shape of Meaning is refused wherever a
  value is read, map keys included.
- `src/probing.rs`: a probe consumes only trivia; every reading step reads
  the same after it.

Dots are glued on both sides: no trivia may stand before a dot or after it,
in a map entry `key.value` and in a variant `Head.payload` alike.

## What the laws cover, and what they do not

- The laws for maps (reading back and writing by view) hold for key types
  whose order vstd specifies (`obeys_cmp`): booleans and the integer types.
  vstd gives no order specification for `String`, so for maps keyed by
  strings the walk itself is proved, and that an empty map is read from and
  written as `Map.[]`, but not the contents of a map with entries or the
  order in which its entries are written; the tests cover them.
- Every successful `decode_with_trace` returns a whole nested trace
  (`nested_trace`, with `law_trace_nests` in `src/codec.rs`): the walk keeps
  its witnesses and its open contexts in step at every point.
- A string whose legacy text common-indentation stripping would change does
  not read back unchanged, and inside a map key only bare text does.
- Stripping common indentation twice equals stripping once for text without
  carriage returns (`law_strip_idempotent` in `src/indentation.rs`).
- `app/`: floats, whose reading and printing are std's floating-point work,
  as a `Float` type built on the library's dotted-float rules.
