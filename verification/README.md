# komodo_guard

The decision-making core of two Komodo components, written in Verus and
proved against its contracts:

- `src/headers.rs`: the file of extra websocket headers that Periphery sends
  to Core (one `Name: value` per line), and the checks on that file's owner
  and permissions. Errors never hold a header value.
- `src/http_headers.rs`: the items of the `http` crate that the header parser
  calls, with their contracts.
- `src/redact.rs` and `src/yaml.rs`: redaction of the environment of every
  service in a resolved compose config, and the replacement of known secrets.
- `src/compose.rs`: the compose command, the container names of a compose
  file's services, and the listing of `docker compose ls`.
- `src/stack.rs`: the regex that matches the containers of a stack's service.
- `src/text.rs`: character-level helpers (trimming, lines, splitting,
  number formatting) with their specifications.

`app/` holds what touches the outside world: reading the headers file,
running `docker compose`, and converting YAML and JSON text to and from the
library's values.
