# zk_data_quality

A verified step circuit for checking transport orders inside a folding scheme.

One step consumes one order (83 field elements) and updates a state of nine field elements:
a verdict, a fingerprint of every field seen so far, and what the next step has to know of the
order before it. The constraints never force the verdict; they compute it, so an order that
fails a check yields the verdict zero in a constraint system that is still satisfied.

- `src/` is the library, verified with Verus. `src/quality.rs` says what a step computes on
  integers. `src/circuit.rs` builds the constraints and proves that every assignment that meets
  them computes just that, and that every assignment of the inputs within the bounds that a step
  enforces (`order_fits`) can be completed to one that meets them; whatever 64-bit integers an
  order holds, it is within them in every state that a fold reaches. `src/laws.rs` shows what follows for orders and whole folds.
  The calls into arkworks stand behind small functions in `src/r1cs.rs` and `src/field.rs`,
  whose contracts are trusted.
- `tests/` runs the library against the real constraint systems.
- `app/` folds a data set of orders with Nova, HyperNova and ProtoGalaxy.

## What the circuit does not do

- It compares an order only with the one before it. That no two orders of a vehicle overlap
  follows if the stream is sorted by vehicle and start time.
- It does not bound the fields of an order by itself. Times are sound whatever field elements
  are supplied; coordinates, weights, quantities and capacities are taken to be 64-bit integers.
- The challenge of the fingerprint has to be drawn after the data set is committed to.
