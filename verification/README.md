# redlib settings library

The decisions behind the settings endpoints of a privacy-respecting Reddit
front end, verified with Verus.

- `src/settings.rs`: which preference cookies a settings request sets or
  removes, how the `subscriptions` and `filters` lists are spread over
  numbered cookies, and where the request redirects.
- `src/export.rs`: unpacking an exported preferences blob (size limit,
  `encoded_prefs` field, base2048 decoding).
- `src/chunks.rs`: packing list items into groups of at most 4000 bytes.
- `src/cookies.rs`: cookie changes and numbered cookie names.
- `src/form.rs`, `src/text.rs`, `src/decimal.rs`: form lookup, character
  sequences and decimal numerals.
- `app/`: the HTTP handlers and the streaming response body, which read
  requests and write responses around the library.
