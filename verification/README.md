# document-diff-report

Compares two versions of a document paragraph by paragraph and writes a single,
self-contained HTML report in which matching paragraphs stand side by side.
Supported inputs: PDF, docx, pptx, xlsx/xlsm and CSV.

The library in `src/` is verified with Verus:

- `extract` — grouping of text lines into paragraph blocks (blank lines, bullets, numbered
  and `第N` headings, sentence ends, CJK-aware line joining, page numbers, dot leaders).
- `office` / `slides` — docx paragraphs, pptx text frames in slide order, xlsx rows with
  formulas, CSV records (UTF-8 or Shift_JIS); the archive, XML, workbook and CSV parsing is
  done by `zip`, `quick-xml`, `calamine`, `csv` and `encoding_rs` behind trusted wrappers.
- `diffing` / `align` — the paragraph diff (Myers diff of `similar` on white-space-free
  keys), the order-preserving maximal-similarity matching of replaced regions, the
  character-level `<del>`/`<ins>` markup, and move detection.
- `diff_laws` — properties of the diff proved for all inputs.
- `report` / `template` — the HTML report.

`app/main.rs` is the command line program: argument parsing, file I/O and PDF text
extraction with PDFium.

```sh
document-diff-report old.pdf new.pdf -o diff_report.html
```
