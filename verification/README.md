# snmp_walk

A bulk walk over the subtree of an SNMP object identifier, with its logic
verified by Verus.

- `src/oid.rs` reads dotted identifiers such as `1.3.6.1.2.1.2.2.1.2` into
  their arcs (empty pieces between dots are skipped, every other piece must
  be a `u32` in decimal), and borrows vectors of arcs as slices.
- `src/walk.rs` holds `BulkWalk`, the decisions of a walk: which names of a
  reply are reported, where the next request starts, and when the walk is
  over, in two strategies (stop at the first name outside the subtree, or
  keep every name inside it).
- `src/report.rs` picks the bindings whose encoded names lie under the
  interface descriptions.
- `app/main.rs` opens the SNMP session, sends the requests and prints.
