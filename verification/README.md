# minimint_bridge

The bridge between a mobile wallet front end and federated e-cash (minimint)
clients. It keeps one client per federation joined, under a label derived from
the federation's guardians, stores each client's config, user data and payment
records in a sled database, and checks lightning invoices before they are paid.

## Layout

- `src/` — the library, verified with Verus:
  - `database.rs`: sled databases and trees, viewed as sets of tree names and maps
    of entries; reads, writes, prefix scans and batches. A database hands out at
    most one handle per tree, since sled's handles share their entries, and keeps
    the handles given back, so what a closed tree holds stays known.
  - `federation.rs`: the federation label (URL normalisation, stable sort by URL,
    compact JSON, SHA-256, hex).
  - `invoice.rs`: BOLT11 decoding (refusing amounts that cannot be represented),
    amounts in satoshis and fee reserves.
  - `payments.rs`: payment records and their byte encoding.
  - `client.rs`: one federation's client and its records.
  - `client_manager.rs`: the clients kept, under unique labels.
  - `api.rs`: the operations the front end calls.
  - `hex.rs`, `text.rs`, `error.rs`: hex encoding, UTF-8 strings, errors.
- `tests/` — tests of the library.
- `app/` — the front-end bridge: global state, the async runtime, and the
  federation clients that reach the network and hand their answers to the library.

The library makes no network call: where an operation waits on a federation
(joining, paying, issuing an invoice, polling for incoming payments), the library
takes the federation's answer as an argument and decides what is recorded.
