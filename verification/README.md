# otap_logs_export

Verified core of an OpenTelemetry (OTAP) log exporter for Azure Monitor, and of
the OTAP attribute store.

- `src/gzip_batcher.rs`: packs JSON log records into gzip-compressed JSON
  arrays of at most 1 MB each (`flate2`, `bytes`).
- `src/state.rs`: tracks messages whose compressed chunks are in flight, and
  releases each exactly once for an ack (all chunks succeeded) or a nack (a
  chunk failed).
- `src/exporter.rs`: what becomes of an incoming logs message, and when the
  access token is refreshed next.
- `src/store.rs`: attribute rows grouped by parent id, looked up by id or by
  delta-encoded id.
- `app/lib.rs`: glue to the Tokio clock and the Azure identity token, and the
  float row counts of the HTTP client.
