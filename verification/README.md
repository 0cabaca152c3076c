# unscan

Identifies the fonts of scanned pages: it measures the glyphs of a scan, compares them with
an index of rendered fonts, and scores whole lines against trained classifiers.

- `src/` is the library. Verus proves the contract of every function in it, but for a few that
  only call other crates or the standard library: their contracts are taken on trust (see
  below). Floating-point values pass through the library as their bit patterns; it orders,
  stores and reads them back, and the program computes with them.
- `tests/` runs the library on concrete values.
- `app/` is the program: arguments, files, drawing of glyphs, floating-point measures and the
  training of the classifiers.

## The library

| Subject | Modules |
| --- | --- |
| Pixels | `raster`, `contrast`, `histogram`, `color`, `grid`, `shape`, `glyph`, `features` |
| Lines and words | `segmentation`, `ligatures`, `line_chars`, `page_scan`, `specimen` |
| Character index | `char_index`, `index_file`, `char_search`, `char_render` |
| Classifier files | `ngram_model`, `mapped_model`, `model_store`, `mlp`, `per_font`, `embedders`, `weights`, `reader` |
| Training | `training`, `trained`, `samples`, `lru` |
| Fonts | `font_history`, `font_identity`, `font_match`, `ranking` |
| Reports and options | `compare`, `diagnostic`, `audit`, `cli`, `cache`, `paths`, `error` |
| Foundations | `bytes`, `text`, `sorting`, `counting`, `seq_map`, `float_bits` |

Statements that relate several functions are public proof functions whose names begin with
`law_`. What the library takes on trust from other crates and from the standard library stands
in functions marked `external_body` or in an `assume_specification`, each with a comment that
says what is claimed.
