# extract

Tools over PDF forms and page text, with their logic verified by Verus.

- `src/` is the verified library: a model of PDF objects and documents
  (`pdf`), how objects are written as text (`render`, `text`), renaming
  form fields to their full names (`rename`), listing form fields
  (`listing`), reading the fields that a filler visits and encoding the
  values it stores (`fill`), and what the operators of page content do to
  the text state (`content`). Paths go through `std::path` (`paths`).
- `app/` is the program around it: `extract <tool> <args>` with the tools
  `text_boxes`, `fill_form`, `form_fields` and `rename_form_fields`; with
  no tool it prints the page annotations of `form0.pdf`. It reads and
  writes files with `lopdf`, `serde_yaml` and `std`, converts `lopdf`
  documents into the library's model, and does the floating-point geometry.
- `tests/` runs the library on concrete documents.
