# archive_ui

The rules of a small desktop uploader for [archive.org](https://archive.org),
verified with [Verus](https://github.com/verus-lang/verus).

- `src/`: the library. Every function in it has a contract, and what is promised
  of several functions together stands in proof functions named `law_…`.
- `tests/`: the library on concrete values.
- `app/`: the desktop shell, which runs programs, reads directories and talks to
  the window. It asks the library what to do, and tells it what came of it.

| Module       | Contents                                                              |
|--------------|-----------------------------------------------------------------------|
| `text`       | white space, trimming, decimal numbers, lines                         |
| `bytes`      | bytes as UTF-8 text                                                   |
| `json`       | JSON replies, read with `serde_json`                                  |
| `command`    | programs to run, and what came of running them                        |
| `ia`         | finding the `ia` tool                                                 |
| `account`    | signing in                                                            |
| `identifier` | whether an identifier is free                                         |
| `item`       | details of an item that exists already                                |
| `order`      | lexicographic order                                                   |
| `path`       | paths as lists of parts, their order and their names                  |
| `sources`    | walking folders, and listing the selected files                       |
| `stream`     | output of a running program: committed lines and progress             |
| `upload`     | planning an upload, cancelling it, and reporting on it                |

The items marked `#[verifier::external_body]` in `bytes` and `json`, and the types
declared in `json`, are believed and not proved. Each says what it claims of the
function that it calls.
