# getquotes

A command-line tool that fetches quotes from Wikiquote and prints them in the
terminal, coloured and laid out as its configuration asks, with a local cache for
offline use.

## Layout

- `src/` is the library, written in Verus and verified:
  - `text` — characters of strings, whitespace trimming, ASCII case;
  - `hex` — the two-digit hexadecimal reading behind `#RRGGBB` colours;
  - `config` — the configuration and its defaults, `#RRGGBB` theme colours;
  - `render` — style tokens, fills, named colours, nested quotes, word wrapping,
    the default and box layouts, and the painting of each character;
  - `page` — the quotes in the HTML of a Wikiquote page section;
  - `cache` — quote normalization, the cache migration that collapses duplicate
    rows, the per-run deduplication, and random picks from the cache;
  - `throttle` — the sliding one-minute window of API calls;
  - `session` — command-line overrides, the offline pick, and the online search
    for a quote as a state machine.
- `app/` is the program around it: argument parsing, configuration files, HTTP
  requests, the SQLite cache, logging, waiting, and the CSS colour arithmetic that
  works on floating-point numbers.
- `tests/` exercises the library.
