# zmij_ecma

Formats IEEE 754 binary64 and binary32 values the way ECMAScript's
`Number::prototype.toString()` does, with the layout proved in Verus.

- `src/` is the verified library. A value is given by its bit pattern and its
  shortest round-trip decimal `mantissa * 10^exponent`; the library classifies
  the bits (NaN, infinities, signed zeros), drops trailing zeros of the
  mantissa and writes the digits in fixed notation for decimal exponents -6
  to 20 and in exponential notation otherwise. `src/shortest.rs` states, in
  integer arithmetic, which decimal ECMA-262 chooses for a binary value, and
  proves that every finite binary64 or binary32 value has exactly one such
  decimal; `src/laws.rs` proves that given that decimal the output is ECMA-262
  `Number::toString` of the value, together with the other properties of
  every input (sign handling, where fixed notation is used, that the text
  denotes the decimal, which bytes are written, and that every output has
  1 to 25 bytes, since ECMA-262's decimal of a binary64 value has at most 17
  digits and a decimal exponent of at most three digits).
- `app/` is the `Buffer` API on `f64` and `f32`: it takes the bits of the
  floating-point value and its shortest decimal (from the Ryu algorithm in
  `ryu_floating_decimal`) and hands both to the library.
- `tests/` checks the formatter against ECMAScript expectations and against
  `ryu-js`.
