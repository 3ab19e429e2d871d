# dns_blocklist_compiler

Downloads DNS blocklists (plain domains, hosts files, adblock rules), merges them into
category bitmaps and compiles them into one SDBL v3 binary image: a 48-byte header, a
category table, a trie of exact domains and a trie of wildcard suffixes stored reversed.
The build checks what it downloads (layer 1), what it parses (layer 2) and the image it
produced (layer 3) before writing `blocklist.bin`, `blocklist.bin.gz` and `blocklist.json`.

The library in `src/` is verified with Verus; `app/` is the command line around it.

## Layout

| Module | What it holds |
|---|---|
| `trie` | the byte trie, its map view, its serialization (written depth first with an explicit work stack, proved equal to the recursive layout) and the proof that a trie is serialized the same way whatever order its keys were inserted in |
| `parser` | list formats, domain validity, `parse_blocklist` and the store of exact domains and wildcard suffixes |
| `binary` | `compile`, the image as a function of the store, and what reading it back gives (lookups, terminal walks, category table, per-bit counts) |
| `reader` | the image reader: header, category table, lookups, terminal walks, per-bit counts |
| `validator` | the three validation layers and their error messages |
| `downloader` | download outcomes, the retry decisions and backoff, URL resolution |
| `pipeline` | ingesting one downloaded list, and the build artifacts (image, gzip stream, SHA-256) |
| `metadata` | build identifiers, calendar dates of Unix times, the metadata document |
| `text`, `chars`, `bytes`, `clock` | number formatting, character classes and splitting, little-endian fields, the system clock |

Calls into `sha2`, `flate2` and std that the proofs cannot look into sit behind small
trusted functions, each documented with what it assumes. HTTP (`ureq`), parallelism
(`rayon`), JSON (`serde`, `serde_json`) and file output live in `app/`.
