# kapi

The logic of the Kapi desktop host (a plugin launcher with a dock, a plugin
bridge, a WASM sandbox and a workflow engine), written in Verus with its
behaviour stated as contracts and proved.

## Layout

- `src/` — the verified library.
  - `bridge/` — bridge request checks (`validate`), permissions and channel
    routing (`dispatch`), and the event subscription table (`event_bus`).
  - `plugin/` — manifest window resolution and the install plan (`resolve`,
    `install`), and the launch decision (`launch`).
  - `workflow/` — the data model, graph validation and execution waves
    (`graph`, `topo`), cron schedules on a proleptic UTC calendar (`cron`,
    `calendar`), node input assembly (`input`), the run state (`run`),
    trigger decisions (`trigger`) and transform nodes (`transform`).
  - `wasm/` — the guest ABI (`abi`), the memory budget (`limits`) and the
    guest/host envelope checks (`guest`), and the guest-side bump heap the
    sample plugin uses (`heap`).
  - `protocol.rs` — the `kapi-plugin://` request path rules and content types.
  - `store.rs` — store sources, listings and zipball extraction checks.
  - `dock.rs`, `tray.rs` — the dock state machine and tray labels.
  - `error.rs`, `json.rs`, `text.rs`, `order.rs` — error values, a JSON model,
    string helpers and lexicographic order.
- `tests/` — tests of the library, run against the compiled crate.
- `app/` — the Tauri host around the library: windows, the tray, SQLite,
  files, HTTP, the WASM engine and the async loops that drive the library's
  state machines.

Outside crates called from the library: `url` (URL parsing), `serde_json`
(reading JSON text and bytes) and `handlebars` (template rendering), each
call behind a trusted wrapper whose contract names what it returns.
