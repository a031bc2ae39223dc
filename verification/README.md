# slugsocial

A forum and a garden of ranked items, as a verified library with a web server around it.

- `src/` is the library. Every function in it is proved by Verus to do what its contract says:
  who may see a room, which posts a page shows, how an item is named and linked, which pair of
  items is put up for judgement next, what a search finds, and what a page of an item holds.
  Functions named `law_…` state what holds of several of them together.
- `src/outside.rs`, `src/unicode.rs` and the head of `src/text.rs` hold the calls into other
  crates and the standard library, each with what is relied upon of it.
- `tests/` runs the library on concrete values.
- `app/` is the server: routes, markup, cookies, files, and requests to GitHub. It reads the
  state of the site from `snapshot.json` in `SLUG_DATA_DIR`, and appends what readers post to
  `commands.jsonl` there.

Texts are sequences of characters in contracts, and rows of the state are read through their
views. Rankings are part of the state that the library reads; scores are texts, because the
library does no floating-point arithmetic.
