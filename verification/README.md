# Cap'n Proto message layout, verified

This crate reads and builds the layout of Cap'n Proto messages: wire
pointers (struct, list and far pointers), structs with data and pointer
sections, primitive, pointer and inline-composite lists, and text. Every
function is proved with Verus against a contract over a mathematical model:
a message is a sequence of segments, each a sequence of bytes, and every
position is a byte offset into a segment.

Layout of `src/`:

- `le.rs`: little-endian numbers in byte sequences.
- `wire.rs`: field sizes, pointer kinds and the encoding of a wire pointer.
- `arena.rs`: the segments a reader reads (`ReaderArena`) and the segments a
  builder fills (`BuilderArena`), with their allocation.
- `wire_helpers.rs`: following far pointers, bounds checks, and reading
  structs, lists and text through a pointer.
- `reader.rs`: `PointerReader`, `StructReader`, `ListReader`. Each read
  comes twice: one that requires a well-formed message and one (`try_*`)
  that checks it and gives a `ReadError` where it is malformed.
- `primitive.rs`: fixed-width values in data sections and list elements.
- `write_helpers.rs`: zeroing unreachable objects (`zero_object` where all
  that a pointer reaches can be zeroed, `try_zero_object` checking it),
  allocation (with far pointers and landing pads when a segment is full)
  and initialization of structs, lists and text.
- `builder.rs`: `PointerBuilder`, `StructBuilder`, `ListBuilder`.
- `footprint.rs`: the bytes that zeroing an object may touch: the object,
  its landing pads, and what its pointers lead to; and when what a pointer
  reaches is a tree (no object or landing pad overlaps another), in which
  case zeroing sets exactly those bytes to zero.
- `laws.rs`: properties across operations: a builder and a reader over the
  same struct agree, writing one field leaves the fields it does not overlap
  unchanged, allocation keeps every field outside what the overwritten
  pointer reached, fresh objects read as zero, a list element reads back
  what was written, and a list of structs reads as a list of its first
  fields.

`app/` holds the floating-point accessors, which move an `f32` or `f64`
through the verified integer accessors of the same width.
