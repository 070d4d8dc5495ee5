# tge — template gettext extractor

Finds the messages wrapped in `{{#gettext}} ... {{/gettext}}` tags of
mustache templates and writes them, one `msgid`/`msgstr` entry each, sorted
and without duplicates, into a gettext catalog (`.pot`) file.

Layout:

- `src/` — the verified library (Verus):
  - `text.rs`: whitespace trimming, quote escaping, the order of strings;
  - `cli.rs`: the arguments and their validation;
  - `regex_collection.rs`: the gettext tag pattern and the calls into the
    `regex` crate;
  - `extractor.rs`: the message set, gathering messages, the catalog text;
  - `catalog_reading.rs`: the lines of a catalog text and its `msgid`s read
    back.
- `app/` — the command line front end: argument parsing with `clap`, the
  filesystem through `vfs`.
- `tests/` — tests of the library.
