# garupa

Verified core of a Garupa API service, written in Verus.

- `src/proto/wire.rs` — base-128 varints and the scan of a buffer into raw
  protobuf fields, with the laws of the scan (trailing bytes never disturb a
  well-formed message).
- `src/proto/schema.rs` — runtime schema descriptors.
- `src/proto/decoder.rs` — the schema-driven decoder: wire types checked
  against the schema, repeated fields as arrays, non-repeated fields taking
  their last valid occurrence.
- `src/proto/dump.rs`, `src/proto/usage.rs` — raw dumps and per-field wire-type
  surveys used for schema discovery.
- `src/crypto.rs` — AES-128-CBC decryption of response bodies (through the
  `aes` and `cbc` crates).
- `src/api/auth.rs` — the API-key decision of the authentication middleware.
- `app/` — JSON rendering with `serde_json`, error types with their messages,
  and the axum middleware around the verified decision.
