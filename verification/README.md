# simple_http_server

A minimal static-file HTTP server. The library in `src/` holds its logic, and
Verus proves it against its specifications:

- `config`: command-line arguments (port, `--dir`, `--bind`, help, version) and
  the check of the served directory once it has been looked up.
- `security`: percent-decoding of request paths, Unix path components, joining
  below the served root, and the component-wise containment test. A request
  path with a `..` component is never resolved, and a resolved path always
  lies within the root.
- `content`: content types by extension, HTML escaping, and the sorted HTML
  listing of a directory.
- `response`: the bytes of a response (status line, headers, body).
- `logging`: access-log lines and their timestamps (formatted by chrono; the
  clock itself is read in `app/`).
- `server`: serving one connection as a state machine: each step takes what
  the caller found out (the request line, a probe of the file system, a file's
  contents, a directory's entries) and says what to do next.
- `text`: character-level helpers.

`app/` is the program around it: it reads the arguments, listens on TCP,
performs each step's file-system work and writes the responses.
