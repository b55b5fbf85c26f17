# robrowser-remoteclient

Serves the assets of a Ragnarok Online client over HTTP, for use as a remote
client by roBrowser. Files are looked up in the loose directories (`data`,
`BGM`, `System`, `AI`) first, then in the GRF archives listed in `DATA.INI`, in
priority order. Lookups are case-insensitive and accept both `/` and `\`
separators.

## Layout

- `src/` is the library, verified with Verus: every function carries a
  contract, and the properties that span functions are stated and proved as
  `law_*` proof functions.
  - `grf.rs`: the GRF format — header checks, the packed file table, the
    lookup index, entry decryption and inflation.
  - `des.rs`, `bits.rs`: the block cipher GRF uses for encrypted entries.
  - `client.rs`: where a path lives (loose files first, then the archives in
    priority order), file name search, entity tags.
  - `ini.rs`: the archive list of `DATA.INI`, in priority order.
  - `cache.rs`: which loose files are worth deflating, and the in-memory cache
    of deflated copies under its budget.
  - `http.rs`, `paths.rs`: the decisions behind an answer — content type,
    `Accept-Encoding`, entity tags and conditional requests, request paths and
    the search form.
  - `keyed.rs`, `lex.rs`, `fnv.rs`, `text.rs`, `ascii.rs`: the byte-string map,
    ordering, hashing and formatting the rest builds on.
  - `zlib.rs`, `filter.rs`: the calls into `flate2` and `regex`, behind
    contracts that name what those crates compute.
- `app/` is the program around it: command line, the directory walk, the
  memory-mapped archives, the compression threads and the HTTP server.
- `tests/` exercise the library on concrete values.

## Usage

```sh
robrowser-remoteclient /path/to/client
```

| Option        | Environment                     | Default        |
| ------------- | ------------------------------- | -------------- |
| `<client>`    | —                               | required       |
| `--bind ADDR` | `ROBROWSER_REMOTECLIENT_BIND`   | `0.0.0.0:8080` |
| `--cors`      | `ROBROWSER_REMOTECLIENT_CORS`   | off            |
| `--search`    | `ROBROWSER_REMOTECLIENT_SEARCH` | off            |

With `--search`, `POST /` answers file name searches: the body is
`filter=<regex>`, form-encoded, and the reply is the matched names, one per
line, separated by backslashes as the client spells them.
