# windowrs

Windows over a slice: subslices of `size` elements, one every `step`
elements (`1 <= step <= size`), with a shorter final window so that no
element is dropped. Each window carries its `[start, end)` span in the
slice.

The library is written in Verus and proved against a model of the windows
a slice yields:

- `src/model.rs`: the windows of a slice as a sequence of spans, and what
  `next`, `nth` and `last` do to the windows still to come.
- `src/window.rs`: `Window`, a value tagged with its span.
- `src/windows.rs`: `Windows`, the iterator, with its type invariant.
- `src/windower.rs`: the `Windower` trait, `.as_windows(size, step)`.
- `src/laws.rs`: proofs that the windows tile the slice, that `nth` is
  repeated `next`, that `last` is the final `next`, and that `len` counts
  the windows yielded.

`tests/` runs the iterator on concrete inputs.
