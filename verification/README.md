# fruits

Foundational data structures and helpers of the fruits game engine, with their
behaviour stated as contracts and proved by Verus.

- `src/` is the verified library: bit arrays, slot maps with versioned handles,
  fixed-capacity and morphing vectors, a sparse map over close integer keys, a
  topologically sorting graph, a forest builder, the parent/child list
  reconciliation of the transform hierarchy, the job stage machine of the thread
  pool, the swizzling accessor generator, the standard shader text, the RGBA
  padding and mip level count of texture uploads, a JSON text parser and writer
  (flat or indented, with the parser reading the writer's text back), JSON
  objects with distinct field names, the serializer derive from the item's
  tokens to the impl's source text, the lenient reading of integers, the
  variant choice of enum decoding and the integer and variant handling of the
  JSON projection, reflection type shapes and the render-graph node builder.
- `tests/` runs the library on concrete values.
- `app/` holds what the verifier does not take: worker threads and channels,
  byte views of memory, type-erased reflection through `dyn Any`, serde forms of
  the UI types, the floating-point UI lengths and JSON numbers as `f64`, the
  walk over a built tree that hands each node to a caller's closure, the
  derive's token plumbing, and the texture upload's preparation.
