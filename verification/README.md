# zero2prod

A small web service and the pieces it is built from, with the logic verified
by Verus.

- `src/` — the verified library:
  - `value` — serde's data model as plain values (`Value`), and the
    environment variables (`EnvVar`) rendered from it;
  - `serializer` — `EnvSerializerBuilder`: a value as a `.env` file
    (`KEY=value` lines), with the laws it keeps (namespacing under the
    prefix, prefix as an outer field, last map entry wins, the separator
    shapes values only);
  - `serialize` — `EnvSerializer`: a struct's fields as process
    environment variables;
  - `configuration` — `Settings`/`Routing`, their defaults, the listening
    address, and how a failed configuration load is resolved;
  - `logs` — the text logged for a container's output;
  - `text` — decimal and hexadecimal notation, and the std/`hex` calls that
    produce text.
- `app/` — the program: the HTTP server (actix-web), configuration loading
  (config), logging set-up (tracing), the serde `Serializer` that turns any
  value into a `Value`, file and environment writes, and the health-check
  client.
- `tests/` — tests of the library on concrete values.
