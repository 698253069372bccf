# bnum

Fixed-width integers, generic over signedness, bit width and overflow behaviour, stored as
little-endian byte arrays. Every operation is written in Verus and proved against a
mathematical model: a value is an integer in the range of its type, and each operation states
its result over that integer (wrapping, saturating, checked, overflowing and strict variants,
division and remainder in truncating and Euclidean form, shifts, rotations, bit counts,
byte orders, radix conversion and parsing, roots, logarithms, gcd and lcm).

Layout:

- `src/` — the verified library.
  - `integer/` — the `Integer` type and its operations, one file per family.
  - `model.rs`, `digits.rs`, `raw.rs` — the mathematical model and the byte-array algorithms.
  - `literal_parse.rs` — integer literals with type descriptors (`0xffU256`, `-5I24w`, ...).
  - `random.rs` — the decisions of uniform sampling from a range, one random draw at a time.
  - `matrix.rs` — fixed-size matrices and the reduced-row-echelon test.
  - `laws.rs` — properties that span several operations (round trips, inverses, gcd/lcm).
- `tests/` — executable tests of the library.
- `app/` — the traits of the standard library and of `rand`, `num-traits`, `num-integer` and
  `serde` on a wrapper type; each calls the library after checking its preconditions.
