# libdoh

The message-handling core of a DNS-over-HTTPS proxy, verified with Verus.

- `src/dns.rs`: DNS wire format — header fields, skipping names and records,
  the cache TTL of a response, setting the EDNS payload size and EDNS padding,
  each specified by spec functions over the message bytes, with proved laws
  (padding sizes, TTL bounds, idempotent payload-size setting).
- `src/dns_json.rs`: the JSON view of DNS messages — parsing responses with
  compressed names, record types by name, and building queries from JSON
  parameters, with the law that a built query reads back as its name and type.
- `src/text.rs`, `src/wire.rs`: decimal text, ASCII case, and the calls into
  `byteorder`, `base64` and std's lossy UTF-8 decoding, each with its contract.
- `src/errors.rs`, `src/globals.rs`, `src/utils.rs`, `src/telemetry.rs`: proxy
  errors and their HTTP status, the shared client counter, startup argument
  checks, and the defaults of the metrics export settings.
- `app/`: what needs I/O or other libraries' traits — serde forms of the JSON
  types, `hyper` status codes, socket address parsing and resolution, and
  OpenTelemetry metrics.
