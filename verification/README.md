# CoverForge

CoverForge renders podcast covers and social thumbnails from JSON templates.
This crate is split in two:

- `src/` is the library, written in Verus. Every function there carries a
  contract that Verus proves: template ids and slugs, output and font filename
  rules, format and variant resolution, `{{variable}}` substitution, XML
  escaping, greedy word wrapping, asset path resolution inside the allowed
  roots, the font catalogue (dedup and stable ordering) and the search for the
  best JPEG quality under a byte budget. Calls into outside crates (JPEG
  encoding, base64, random tokens, Unicode case mapping, `String::push`) sit behind small
  trusted wrappers whose doc comments say what is assumed of them.
- `app/` is the HTTP service around it (axum, tokio, resvg, file I/O). It
  hands plain values to the library and performs the I/O the library decides.

Module map of `src/`:

| module      | contents                                                        |
|-------------|-----------------------------------------------------------------|
| `text`      | character-level helpers over `String`/`&str` views              |
| `order`     | lexicographic order on strings and its laws                     |
| `strmap`    | `StrMap`, a sorted string-keyed map (the variables, formats)    |
| `names`     | `safe_name`, template ids, slugs, legacy template names         |
| `markup`    | substitution, XML escaping, text layer helpers                  |
| `wrap`      | line splitting and greedy word wrapping                         |
| `paths`     | the path rules the service relies on (components, join, ...)    |
| `filenames` | output and font filename rules, template listing                |
| `model`     | templates, canvases, requests and responses                     |
| `svg`       | the SVG elements of a cover, with every template text escaped   |
| `render`    | `Renderer` paths, format resolution, variants, asset lookup     |
| `legacy`    | the legacy generate request: variables and output path          |
| `media`     | JPEG size budget search, PNG data URIs                          |
| `fonts`     | `fc-list` line parsing and the font catalogue                   |
| `error`     | `CoverError`                                                    |

Laws of the library are public `proof fn lemma_*` items next to the
functions they speak of.
