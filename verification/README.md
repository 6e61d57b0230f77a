# markdown_editor

A native Markdown editor (egui) whose editing logic is a library verified
with Verus.

- `src/` — the verified library:
  - `text_util`: character index ↔ UTF-8 byte offset conversions;
  - `find`: non-overlapping (optionally case-folded) search, and the find &
    replace state (cached matches, wrap-around stepping, replace one/all);
  - `outline`: ATX headings outside fenced code blocks, with line offsets;
  - `toolbar`: the formatting actions applied at the selection;
  - `markdown`, `slides`: the Markdown event stream (from pulldown-cmark)
    and its plain-text, slide and PPTX conversions; `export`: the HTML page,
    export names, title and counts;
  - `doc`: unsaved-changes tracking and the prompt before discarding;
  - `ai`: the AI panel's prompts, request text and reply handling;
  - `chars`, `strs`: trimming, character classes and string building.
- `app/` — the program: window, panels, dialogs, files, network, settings
  storage, the DOCX writer and the files written.
- `tests/` — tests of the library.
