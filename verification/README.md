# microchan

A minimal imageboard engine. The library (`src/`) holds the engine's rules and
algorithms, each with a contract proved by Verus; `app/` is the server around
it (configuration file, database, HTTP, files on disk, ffmpeg).

## Library modules

- `des`, `tripcode`, `codecs`, `hashes`: classic (`#`) tripcodes on a DES-based
  crypt, secure (`##`) tripcodes from SHA-1 and Base64, Shift_JIS conversion,
  HMAC-SHA256 address hashes and SHA-256 file hashes in hex.
- `markup`: post bodies to HTML (escaping, spoilers, post links, greentext).
- `media`: type detection by magic bytes, file name cleaning, upload checks,
  stored names, image limits and thumbnails.
- `forms`: post, report, ban and jump forms, checked and normalized.
- `config`: configuration defaults, overrides and validation.
- `net`, `security`: address networks, trusted proxies, the client address.
- `views`, `repo`: navigation, counters, links, pagination, thread summaries.
- `error`: user-facing errors and their HTTP answers.
- `text`: the std string operations the library relies on, and character
  classes.

Laws that span functions are public proof functions named `lemma_*`.
