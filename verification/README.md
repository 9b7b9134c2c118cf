# rust_graphql_kata_001_web

A GraphQL forum service (users, sessions, forums, threads, replies) served
over HTTP and stored in PostgreSQL.

- `src/` is the verified library: the domain, the configuration format
  (`APP__SECTION__FIELD` environment variables and overrides written into a
  settings tree, and the configuration read from it), cursor-based
  pagination in the shape of a Relay connection, and what the GraphQL
  resolvers decide. Verus proves the contracts of its functions; the few
  functions that call the `base64`, `time` and `uuid` crates are trusted to
  meet theirs, which their doc comments state.
- `app/` is the program around it: the Actix Web server, the async-graphql
  schema objects, the PostgreSQL queries and logging.
- `tests/` runs the library on concrete values.

## Environment variables

| Name                   | Description                   | Example |
|------------------------|-------------------------------|---------|
| APP__HTTP_SERVER__HOST | Interface to bind HTTP server | 0.0.0.0 |
| APP__HTTP_SERVER__PORT | Port to bind HTTP server      | 0       |
| APP__POSTGRES__...     | `database_name`, `host`, `password`, `port`, `require_ssl`, `username`, and optionally `migration__create_database`, `migration__path` | |
