# rnote

The Xournal++ `.xopp` file format and the stroke styles of rnote, with the
parts that decide things verified by Verus.

- `src/` is the verified library:
  - `text`: trimming, splitting at spaces, pairing, and the integer syntaxes
    of `u32::from_str_radix` and `i32::from_str`;
  - `color`: `#RRGGBBAA` and named colors, with the laws that a written color
    reads back unchanged and that `#` and eight lowercase hex digits read and
    written again give the same text;
  - `xml`: a parsed XML document as plain values (parsed by `roxmltree`),
    attribute lookup, element children and their classification by tag,
    and the `xmlwriter` calls with the bytes each one writes;
  - `xopp`: tools, background styles, pixmap domains and page backgrounds,
    read from and written to XML, with the bytes written stated exactly and
    the law that the attributes written for a background read back as the
    same background;
  - `file`: the gzip (`flate2`) and UTF-8 layers of a `.xopp` file, with
    the law that the bytes written for an XML text load as the document
    that text parses to;
  - `textured`: the distributions of textured strokes.
- `app/` holds what computes with `f64` or random numbers: the document tree
  of pages, layers, strokes, texts and images, the rough style generator,
  the textured dot sampling and the line builder.
- `tests/` runs the library on concrete values.
