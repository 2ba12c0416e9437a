# AudioZones server

Control plane for PipeWire audio zones: REST commands plus a WebSocket that pushes the
full graph snapshot. The logic is a Verus-verified library (`src/`); the program around
it (`app/`) serves HTTP, reads and writes files and talks to PipeWire.

Volumes are integer levels in millionths of full scale (`1_000_000` is 1.0) inside
the library; the wire protocol and the zone file carry them as `f32`, converted in
`app/json.rs`.

## Library (`src/`)

```
text.rs, decimal.rs   character-level helpers: comparison, search, trimming, decimal numbers
search.rs, sorted.rs  first-match search, ordered insertion (ordered sets)
table.rs              tables keyed by numeric id
wire.rs               snapshot types (GraphState, NodeView, ...) and their models
identity.rs           stable node/port keys
zones.rs              zone definitions and the zone store
model.rs              desired state of the active zones; reconcile(desired, actual)
backend.rs            what an action does to the in-memory graph; channel arrays
spa_params.rs         the Props/Route params read from and written to PipeWire
pw_model.rs           the PipeWire backend's model of the graph
api.rs                decisions behind the REST handlers; the zone overlay
auth.rs, config.rs    bearer/query token check; server configuration
laws.rs, pw_laws.rs   properties that span operations, proved
```

## Program (`app/`)

`main.rs` wires it together (`--pipewire` selects the real backend, `--schema` prints
the wire schema), `http.rs` is the axum surface, `backend.rs` the backend trait and
the in-memory backend, `pipewire_backend.rs` the PipeWire loop, `files.rs` the TOML
files and `json.rs` the serde copies of the wire types.
