# mobilemodels-db

A catalogue of phone models: collect devices from public pages, keep them in one
database file, and find them by model id, code, codename, name, brand or series,
or by the likeness of their texts.

## Layout

| Path | What it holds |
|---|---|
| `src/` | the library, verified with Verus |
| `src/collector/` | devices from pages and services: tables, support pages, certificates, categories |
| `src/kv.rs`, `src/query.rs`, `src/record.rs`, `src/built.rs` | the index, its questions, the bytes of records, and what a built store answers |
| `src/embed.rs`, `src/search.rs`, `src/order.rs` | features of texts, results of a search, ordering |
| `src/parser.rs`, `src/cli.rs` | input files and the command line |
| `src/text.rs`, `src/number.rs`, `src/json.rs`, `src/pattern.rs`, `src/seen.rs` | texts, numbers, JSON values, patterns, sets of keys |
| `app/` | the program around it: network, files, HTTP, floating point |
| `tests/` | tests of the library |

## Input files

A JSON array of devices; `name` is required, all else may be left out:

```json
[
  {
    "brand": "Apple",
    "series": "iPhone",
    "code": "N90AP",
    "name": "iPhone 4",
    "codename": "iPhone3,1",
    "models": [{ "ids": ["A1332"], "market_name": "iPhone 4 (GSM)" }, "A1333"]
  }
]
```

## Commands

```text
mobilemodels-db build   [--data-dir DIR] [--source PATH]
mobilemodels-db collect [--source NAME] [--out DIR] [--limit N] [--since DATE]
mobilemodels-db query   <model|code|codename|name|brand|series> <KEY> [SERIES]
mobilemodels-db search  <TEXT> [-k N] [--brand NAME]
mobilemodels-db export  <file.json>
mobilemodels-db serve   [--host HOST] [--port PORT]
mobilemodels-db stats
```
