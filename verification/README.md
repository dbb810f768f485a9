# forest-router

A router for requests to language models. Clients ask for a model; the router tries the channels
that are configured for it in order of preference, and the keys of each channel in turn, until one
serves the request.

`src/` is the library: every decision of the router, verified with Verus. It reads no network and no
files; where it needs the time, randomness, JSON, SHA-256, Argon2 or a URL parser, it calls those
through small functions whose contracts are stated and believed.

| module | what it decides |
| --- | --- |
| `config` | which configurations are accepted, identities of keys and monitors, addresses |
| `state` | health of keys, sticky routes, events and notices, what survives a new configuration |
| `health`, `scheduler`, `monitor`, `notifications` | what is checked when, and what comes of it |
| `proxy` | which requests are let in, which key serves them, what a reply is worth |
| `sse`, `usage`, `telemetry` | what is seen in streams, tokens by client and day, counters |
| `balance`, `errors`, `upstream` | quotas, classes of errors, what an error response says |
| `admin`, `cli`, `storage`, `inflight`, `board` | logins and saving, arguments, limits, messages |
| `json`, `table`, `text`, `checks`, `ascii` | documents, maps from text, text, checks in order |
| `clock`, `random`, `secret`, `url` | the outside world |

Functions that read the clock or draw random numbers have a partner, most often with `_at` in its name,
that takes them as arguments.

`tests/` holds examples, `app/` the program around the library: HTTP, files, timers, and copies of the
library's types that serde can read and write.
