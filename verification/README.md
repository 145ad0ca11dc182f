# chrono_photo

Verified core of a chronophotography tool. A stack of images is sliced into
time slices (one image row from every image); for every pixel the tool picks
a value out of the values that pixel takes in all images: the darkest, the
lightest, or one chosen by outlier analysis (distance to the per-channel
median, absolute or relative to the inter-quartile range).

Layout:

- `src/modes.rs` – the option enums and their textual names.
- `src/decimal.rs` – thresholds as written on the command line (`0.05`, `1e-3`, `inf`, `nan`), kept in decimal form and compared exactly.
- `src/stats.rs` – sorting a channel, medians and quartiles (kept doubled).
- `src/select.rs` – the pixel selection rules and their specification.
- `src/processor.rs` – the processor: random background pick, one output row per time slice.
- `src/cli.rs` – command line options and their parsing.
- `src/laws.rs` – properties of the selection proved for all inputs.
- `src/text.rs`, `src/arith.rs` – string and index helpers.
- `app/lib.rs` – argument definitions, reading time slices, progress display.
