# boon

A JSON Schema validator (drafts 4, 6, 7, 2019-09 and 2020-12) whose logic is
proved with Verus.

## Layout

- `src/` the verified library
  - `json` the JSON value model and JSON equality
  - `text`, `util` strings, JSON pointers, url fragments
  - `draft`, `root`, `loading` drafts, vocabularies, resources and anchors
    of a document, and the `$schema` chain of a document
  - `compiler`, `schema` turning documents into compiled schemas
  - `validator` validation of an instance against a compiled schema, and
    of a schema document against a compiled metaschema (the standard
    metaschema documents are not bundled)
  - `formats` the built-in `format` checks
  - `errors`, `messages`, `output` validation errors, their text and the
    flag, basic and detailed output forms
  - `outside` the few calls into other crates (url and uri parsing, idna,
    percent decoding, regular expressions, base64, JSON quoting), each with
    the contract the library relies on
  - `laws` properties that span several calls
- `tests/` tests of the library
- `app/` what stays outside the proofs: loading documents from files and
  urls, the `Display` and serde forms of errors and outputs, the checks
  that need `std::net`, and the translation of ECMA-262 patterns
