# rustinx

A small HTTP server: requests whose path starts with `/api` are forwarded to
an upstream at `localhost:5173`, other paths are answered with files from
`public/`.

The request and response parsers, the header map, routing, the static-file
response, the bytes forwarded upstream and the decisions taken while a
request is read off a connection are verified with Verus; `app/` holds the
sockets, the file reads and `main`.

Layout:

- `src/text.rs`: byte and text helpers (scanning, splitting, trimming,
  decimal numbers) with their specifications.
- `src/http/`: `HeaderMap`, `Request` and `Response` with their parsers.
  Each parser is specified by a function on bytes (`request_outcome`,
  `response_outcome`) that says which result every input gives, or that the
  input is one the parser cannot handle.
- `src/handlers/`: the static-file response and the request bytes sent
  upstream.
- `src/router/`: which handler serves a path.
- `src/server/`: what to do after each read of a request.
- `tests/`: tests on concrete inputs.
- `app/`: the executable.
