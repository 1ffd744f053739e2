# StickyMD

The window rules of a Markdown sticky-note application, verified with Verus.

Notes and timers are windows. Windows can be linked into groups that stand below
each other with a fixed gap. Linking, dragging, resizing, folding, closing,
restoring and packing windows are the operations of this library.

- `src/` is the library. `arrange`, `placement`, `relink` and `reset` compute
  positions and orders. `surface`, `store` and `groups` hold what is stored.
  `link`, `close`, `restore`, `resize`, `settle` and `rearrange` decide what an
  operation does, as a list of steps. `transaction` carries out such a list, one
  effect at a time, and takes it back when an effect fails. `world` is the model
  of the desktop over which the `law_*` proofs state what operations promise, and
  `in_place` says where windows are once an operation is done.
- `app/` performs the effects on real windows and storage, and converts between
  logical and device pixels.
- `tests/` runs the library, the operations on a simulated desktop.

One function is trusted: `link::random_id`, which takes the identifier of a new
group from the `uuid` crate.
