# xdw-salvage

A verified library that reads DocuWorks containers (`.xdw`, `.xbd`) and salvages
what can be recovered from them without the vendor's software, and a command
line tool around it.

What each function returns is stated in its contract and proved with Verus.
The library never touches a file, a clock or a terminal, and computes no
floating point.

## Layout

- `src/domain` — pages, documents, drawings, coverage and verdicts.
- `src/infrastructure` — the byte formats: the container, its page records and
  properties, the LZH and Group 4 codings, EMF and WMF drawings, bitmaps, JPEG
  headers, TrueType fonts, deflate and PNG.
- `src/application` — the ports, the salvage service, what is recovered of a
  document, and the comparison of a conversion with its container.
- `src/adapters` — what becomes of each sheet, and the PDF and HTML that are
  written from it.
- `src/commands` — what the command line tool prints and names its files by.
- `src/rounding.rs`, `src/binary32.rs` — single and double precision on whole
  numbers, for the decisions that rest on a rounded value.
- `app` — the tool: arguments, files, and the measurements in floating point
  (points, percentages, fitted frames), which go into the library as text.
- `tests` — examples with exact results.

Proof functions whose names start with `law_` state what holds across
functions, for instance that a compressed stream inflates to what went in, that
every object of a PDF is found through its table, that each sheet of a document
becomes one page, or that a lost page is always found out. That all a document
refers to lies in its file is part of the contract of
`infrastructure::xdw_document::parse`.

## What is taken on trust

- `encoding_rs` decodes the Japanese code page (`src/infrastructure/cp932.rs`).
- `subsetter` takes glyphs out of a font file, without its support for variable
  fonts (`src/adapters/pdf/subset.rs`).
- `String::push`, `char::from_u32`, `char::is_whitespace` and
  `char::is_alphanumeric` of the standard library.

DocuWorks is a trademark of FUJIFILM Business Innovation Corp. This project is
not affiliated with or endorsed by them.
