# kiro-rs

The request-side logic of an Anthropic-compatible gateway in front of Kiro, verified with
Verus.

- `src/` is the library. Its contracts say what each function returns and changes; the
  functions whose names begin with `law_` state what holds of several of them together.
  - `json`, `canonical`: JSON values and their canonical text.
  - `ttl`, `blocks`, `tokens`, `fingerprint`, `profile`: a request as a row of blocks, and
    the prefixes of it that can be cached.
  - `tracker`, `usage`: which prefixes an account has cached, what a request uses of them,
    and what it is billed for.
  - `provider`, `call`, `metering`: endpoints and clients, a call with retries as a state
    machine, and the credits that a request is metered with.
  - `capture`: what is captured of a request and its response.
  - `tool`, `events`, `admin`: what is sent, what is reported, and how errors are answered.
  - `text`, `numbers`: primitives.
- `app/` is ordinary Rust around the library: the clock of the async runtime, files,
  sockets, locks, wire formats and floating point.
- `tests/` runs the library from outside.

Times are counted in nanoseconds from when a tracker is made. Decimal TTLs such as `1.5h`
need floating point: the library lists them, and takes back how long they are.
