# cadx_core

The deterministic core of the CADX design document, written in Verus: every
function in `src/` carries a `requires`/`ensures` contract over mathematical
models (`Seq`, `Map`, views of the data types), and the laws that relate
several functions are stated and proved as public proof functions named
`law_*`.

## Layout

- `src/` — the verified library.
  - `command.rs` — the command document (layers, entities, parameters,
    constraints), its whole-document check, commands, atomic transactions
    and their diffs and labels.
  - `document.rs`, `constraint.rs`, `expression.rs` — layers, units, diffs,
    sketch-constraint anchors, and the parameter-formula parser.
  - `object.rs`, `snapshot.rs`, `prepared.rs` — object versions and the
    preconditions a prepared action records, snapshots, idempotency keys.
  - `history.rs`, `integrity.rs` — the commit graph (undo, redo, branches,
    restore paths) and the integrity checks of a stored history.
  - `replay.rs` — history replay: each commit's transaction replayed on its
    parent's document and held against its stored diff, and the documents
    that restore and redo hand back, rebuilt from the nearest snapshot.
  - `feature.rs`, `graph.rs`, `model.rs`, `migration.rs`, `assembly.rs` — the
    parametric model's feature links, dependency graph, load-time validation
    and repair, model commands and all-or-nothing command transactions,
    legacy sketch-plane migration, and assembly structure.
  - `cycles.rs`, `downstream.rs`, `validity.rs` — where feature ordering
    stops (exactly on dependency cycles), transitive dependents as a filter
    of the graph order, and what a document that passes validation
    satisfies.
  - `pack.rs`, `remote_policy.rs`, `capability.rs`, `kernel.rs`,
    `diagnostics.rs` — Pack locks, remote-access grants, kernel capabilities
    and topology resolution, stable diagnostic codes.
  - `decimal.rs`, `text.rs`, `order.rs`, `keyed.rs`, `digest.rs` — shared
    helpers: the overflow decision for decimal literals, character-level
    text, strictly ordered lists, ordered-map listings, and SHA-256.
- `tests/` — behavioural tests of the library.
- `app/` — host-side code the verifier does not see: serde wire forms,
  UUID text, and the binary64 evaluation of formulas, entity geometry and
  assembly placements, which hand their findings to the library as plain
  values.

Outside crates reached from `src/` go through a few trusted items: SHA-256
digests (`sha2`), random version-4 UUID bits (`uuid`) and `String::push`.
