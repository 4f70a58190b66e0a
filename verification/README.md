# covered_shorts

Covered shorts on the alpha of subnets, verified with Verus.

A short is opened with a floor of TAO. What the sale of the borrowed alpha brings is kept in
custody as a buffer, beside an escrow that is taken out of the pool. Buffer, escrow and footprint
decay block by block, and what decays goes back to the pool; the alpha that is owed does not
change. A short ends when its owner repays the alpha, when anybody defaults it after its buffer
has become dust and the grace window is over, or when its subnet is deregistered.

## Layout

- `src/fixed.rs`: signed fixed-point numbers, on top of `substrate_fixed`
- `src/storage.rs`: finite maps and ledgers of amounts
- `src/accounts.rs`: accounts, keys and the custody accounts
- `src/types.rs`: positions, sums, parameters, quotes, events, errors
- `src/math.rs`: prices, rates, decay, terminal charges
- `src/residuals.rs`: how well the two quadratic equations are solved
- `src/series.rs`: the series of the exponential, and what it is of a sum
- `src/dust.rs`: how long a buffer takes to decay to dust
- `src/pallet.rs`: the state and the basic moves on it
- `src/open.rs`, `src/close.rs`, `src/decay.rs`, `src/settle.rs`: what happens to a short
- `src/governance.rs`, `src/views.rs`: setters and queries
- `src/migration.rs`: the migration of root claim types
- `src/laws/`: what holds of all of this together
- `app/`: the runtime side, with the types of the outside crates
- `tests/`: the library on concrete values

The root, the exponential and the logarithm are those of `substrate_fixed::transcendental`. A
runtime that takes them from another crate, such as `safe_math`, rounds them in other places, so its
amounts may differ from those computed here in the last digits.

Amounts are in rao. Every call that may be refused says in its contract exactly when, and leaves
the state as it was.
