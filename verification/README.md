# dogstatsd_writer

Renders DogStatsD metrics and packs them into payloads of bounded length. The library is written in
Verus: what each function does is stated in its contract and proved.

- `src/` is the library. `writer.rs` holds `PayloadWriter`, which renders counters, gauges,
  histograms and distributions; `sanitize.rs`, `tags.rs` and `line.rs` say what a metric line looks
  like; `packing.rs` and `queue.rs` say how values become lines and lines become payloads;
  `buffer.rs` and `payloads.rs` lay the payloads out and hand them out.
- `src/text_laws.rs`, `src/payload_laws.rs` and `src/reader_laws.rs` state what holds of every tag
  and name, of the payloads after any sequence of writes, and of what a reader finds in them.
- `src/lowering.rs` holds what those laws presuppose of lowercase forms outside ASCII, and tests it
  on a given text.
- `src/unicode.rs` and `src/metric.rs` hold the few contracts that are taken on trust: the Unicode
  tables of the standard library, and the integers printed by `itoa`.
- `app/` adapts the writer to the keys and labels of the `metrics` crate, and prints floating-point
  numbers with `ryu`. The library takes a floating-point number in its printed form, a `FloatText`.
- `tests/` runs the library.
