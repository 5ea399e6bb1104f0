# pdf_printer

The logic of a streaming PDF printer for Windows, verified with Verus.

- `src/` — the verified library:
  - `pages` — page selections such as `1-10,15,20-30` to sorted page indices;
  - `size` — file sizes as `B`/`KB`/`MB`/`GB` text, rounded exactly as `f64` formatting does;
  - `calendar`, `text` — dates from day counts, and the `YYYY-MM-DD HH:MM:SS` text of a Unix time;
  - `history` — the print history (newest first, at most 100 records);
  - `print_job` — the decisions of a print run (next page, cancellation, counts);
  - `printer` — device-mode values and RGBA to BGRA pixel conversion;
  - `pdf` — document facts and the PNG/base64 data URL of a page preview.
- `app/` — the desktop program around it: Tauri commands, PDFium rendering,
  Windows GDI printing, the history file and the print loop.
- `tests/` — tests of the library.
