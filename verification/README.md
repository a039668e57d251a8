# ui_extractor

Extracts UI element trees (containers, text, icons) from screenshots, with the
core rules proved correct by Verus.

## Layout

- `src/` — the verified library
  - `types.rs` — boxes, ratios, the UI tree, errors
  - `layout.rs`, `imaging.rs`, `sorting.rs` — contour filtering, hierarchy and
    pruning; morphology and border tracing on pixel buffers
  - `pipeline.rs` — attaching recognized words as text lines
  - `icon.rs`, `mask.rs` — icon candidates, crops, ink masks, writing matches back
  - `embedding.rs` — the icon embedding index file format
  - `skeleton.rs` — the HTML wireframe page
  - `annotate.rs` — the outlines and labels of an annotated screenshot
  - `templates.rs` — the icon templates of an index: labels, order, duplicates
  - `runtime.rs`, `config.rs`, `manifest.rs`, `ocr.rs`, `raster.rs`, `text.rs` —
    settings, pack checks, recognizer helpers and string rules
- `tests/` — tests of the library
- `app/` — the command-line program: image decoding, the floating-point filters
  (blur, Canny), JSON and file output, drawing the annotation, reading the
  engine configuration document and template directories, index conversion

Floating-point values that the library carries (confidences, scales) are kept as
their IEEE-754 bit patterns; ratio thresholds are exact fractions.
