# relaisdesk

Authorization checks for a RustDesk-style relay server, with proved contracts,
plus a small helper that tells whether a standard stream is a terminal.

Tokens read `rd1.<base64url JSON claims>.<base64url Ed25519 signature>`; the
issuer signs `rd1.<base64url JSON claims>`. Each request also carries a proof
of possession: the device signs a message binding the action, the timestamp,
the nonce and the token. Nonces are remembered until their token expires, so a
proof is accepted once. Technician devices are limited per tenant and a
viewer's authorization is held by one device at a time.

Layout:

- `src/` — the verified library.
  - `request.rs`: request shape, token framing, proof message, authentication.
  - `claims.rs`: token claims and their validation.
  - `config.rs`: issuer keys and settings.
  - `replay.rs`: the nonce cache.
  - `registration.rs`: active registrations, quotas and exclusivity.
  - `terminal.rs`: whether a standard stream is a terminal.
  - `outside.rs`: the trusted calls into base64, sodiumoxide and the clock.
  - `text.rs`, `seqs.rs`, `clock.rs`, `error.rs`: helpers.
- `app/` — process-wide state (configuration from the environment, the two
  caches behind mutexes), JSON decoding of claims and error display.
- `tests/` — tests of the library on concrete values.
