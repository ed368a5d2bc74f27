# auth_server

A small HTTP server that hands every connection a random id, serves pages
from `html/`, and lets a client authenticate either with a token derived
from shared secrets or with credentials posted as a flat JSON object.

- `src/` is the library, verified with Verus: request parsing (`htmlhandle`),
  the string hash (`hash`), the JSON reader (`jsonhandler`), connection
  bookkeeping (`connection`), character-level text operations (`text`) and
  properties relating them (`laws`).
- `app/main.rs` is the program around it: the listener, socket reads and
  writes, file reads, the clock, random ids and the coloured console output.
- `tests/` runs the library on concrete requests.
