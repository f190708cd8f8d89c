# lwe

Two LWE-based cryptosystems, written to learn the schemes by building them,
with their arithmetic and correctness proved in Verus. This is an educational
implementation, not a production crypto library: parameter sets are not
security-evaluated.

## Layout

- `src/finite_sum.rs`: finite integer sums and the algebra the proofs use
  (linearity, congruence, exchanging the order of a double sum).
- `src/regev/`: Regev's LWE public-key encryption of bits over a prime
  modulus.
  - `arith.rs`: `Z_q` with a Barrett-reduced multiplication and constant-time
    selection (through `subtle`).
  - `params.rs`: parameter validation, primality, the default modulus.
  - `lwe.rs`: keys, encryption, decryption, homomorphic addition and
    subtraction, and trivial encryption.
  - `correctness.rs`: decryption recovers the bit for small noise, and the
    homomorphic operations decrypt to XOR.
- `src/tfhe/`: building blocks of TFHE over a power-of-two modulus:
  `modq.rs` (`Z_{2^k}`), `params.rs` (GLWE parameter sets) and `poly.rs`
  (the negacyclic ring `Z_q[X]/(X^N + 1)`, with commutativity of its product).
- `app/`: what rests on floating point or on serde/zeroize: the rounded
  Gaussian noise sampler, the real-valued parameter formulas, key
  generation (which interleaves uniform and Gaussian draws), and the
  serializable copies of the library's types.

Real-valued parameters (`alpha`, `sigma`) are carried in the library as the
bit patterns of their IEEE-754 binary64 encodings.
