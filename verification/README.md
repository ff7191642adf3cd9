# xberg

The decision-making core of a document extraction toolkit, written in Verus. It turns what format readers find
(bytes, parsed values, sheets, shapes, recognised text) into documents, and holds every reader to one set of
security ceilings. Each function states in its contract what it returns, and Verus proves it.

## Layout

- `src/` is the verified library.
  - `security` holds the ceilings: archives, nesting, growth of text, table cells, entities, paths inside containers.
  - `csv`, `excel`, `xml`, `structured`, `geojson`, `doc`, `visio`, `code`, `myst` and `rtf` read one family of
    formats each and fill the model in `document`.
  - `page_ocr`, `numeric_repair`, `list_markers`, `table_model` and `epub_text` prepare and repair recognised text.
  - `language`, `keywords`, `confidence`, `registry`, `error`, `config` and `diagnostics` serve all of them.
  - `text` and `json` are the common vocabulary of the contracts.
  - `encoding`, `lookup` and `patterns` are the border to other crates, with those functions of the modules above
    that are marked `external_body`. Their contracts are believed, and their doc comments say what is claimed.
- `tests/` runs the library on concrete inputs.
- `app/` is the ordinary Rust around it: asynchronous entry points, files, readers of containers, process-wide state
  and floating-point scores.

Public proof functions whose names start with `law_` state what holds across functions.
