# stark101

A STARK prover and verifier for the statement "element `t` of the sequence
`a[0] = 1`, `a[1]`, `a[n+2] = a[n+1]^2 + a[n]^2` over the BN254 scalar field
has a given value": trace, low-degree extension on a coset, composition
polynomial, FRI, and queries answered with Merkle authentication paths, all
made non-interactive by Fiat-Shamir.

The library in `src/` is verified with Verus:

- `field`: field elements (four canonical limbs) and their arithmetic, done by
  `ark_bn254::Fr`.
- `poly`: polynomials as coefficient vectors, the field's subgroups (radix-2
  and, past 2^28 points, mixed-radix), FFT, interpolation and polynomial
  arithmetic, done by `ark_poly`.
- `hashing`: byte encodings, SHA-256 (`sha2`) of leaves and node pairs, and
  the Fiat-Shamir helpers.
- `merkle`: Merkle trees, authentication paths and their completeness.
- `composition`: the constraint polynomials and the composition polynomial.
- `data`: the proof's data types and its transcript encoding.
- `prover`, `verifying`: the two parties, each with a contract that states
  its output exactly.
- `evaluation`, `degree`: the value of sums, products, quotients, shifts and
  even/odd parts of polynomials at a point, and the length of the
  composition polynomial.
- `roots`: division by `X - z`, root counting and the distinct elements of a
  radix-2 subgroup, which make every division behind an honest trace's
  composition polynomial exact.
- `acceptance`: why the prover builds a proof for every true statement whose
  trace starts with 1, and why the verifier accepts every proof the prover
  builds (for a power-of-two blowup factor of at least 2 and at least one
  query); `generate_prover_values` states both in its contract.

The extended trace is evaluated on the coset `5 * H` of the extended
subgroup `H`, not on `H` itself: `H` holds the trace's own subgroup, at whose
every point the verifier's consistency check divides by zero
(`acceptance::lemma_subgroup_points_divide_by_zero`), while at every point off
that subgroup an honest composition value passes the check
(`acceptance::lemma_consistency_off_subgroup`).

Where a check fails, the library returns an error naming it (the program in
`app/` turns each into the message of the corresponding assertion), and the
contracts say exactly on which inputs each error comes.

`app/main.rs` runs an example: it proves that element 13 of the sequence
starting 1, 10 has the expected value and verifies the proof.
