# qsets-server

A web server for Bible-quiz question pools with tiered access: question pools
are uploaded as CSV, read by tier, and turned into twenty-question standard
sets or random samples.

The library (`src/`) holds the logic, each function with a contract proved by
Verus:

- `services::generator`: CSV pool parsing and validation, book/chapter
  listing and filtering, standard-set and sample generation.
- `services::draws`: the random source of generation, seeded or not; a
  seeded generation is a function of the pool, the request and the seed.
- `services::authz`: who may read, upload and delete pools.
- `services::security`: client address, CSRF double-submit check and cookie,
  login throttling.
- `services::auth`: Argon2 password hashes, session tokens, the session cookie.
- `state`: the bounded cache of parsed pools.
- `config`: environment files and start-up settings.
- `routes::api`, `routes::flows`, `routes::pages`: the decisions of the HTTP
  handlers, as step functions from what the last piece of work came to, to
  what is done next.
- `text`, `seq_facts`: character-level text operations and sequence facts the
  proofs share.

`app/` is the program around it: the Axum router and handlers, the PostgreSQL
queries, the Askama pages, the process-wide throttle and start-up. It runs the
library's step functions and does the work they name.
