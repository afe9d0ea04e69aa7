# halo2_solidity_verifier

Verified building blocks of a Solidity verifier generator for halo2 proofs with the KZG
commitment scheme on BN254, written in Verus.

Layout of `src/`:

- `word`, `layout`, `packer`: 256-bit words, fields or-ed into them, and greedy packing of
  fields into words, with the read-back laws a decoder relies on.
- `hex`: the `hex` and `hex_padded` renderings of words.
- `constants`, `generator`, `scheme`: the named constants of a verifying key or artifact,
  the generator that fills them, its packed circuit data and its working-memory estimate.
- `packing`: the packed per-phase advice/challenge counts and rescaling data.
- `location`, `queries`, `pcs`: pointers, curve points, the opening queries of a proof and
  their grouping into rotation sets.
- `artifact`: the verifying artifact and the verifier with the key embedded.
- `bdfg21`, `evals`, `pairing`: the encoded data of the BDFG21 opening computation, and the
  laws that any two groupings of the same queries agree.
- `yul`, `static_pcs`: the BDFG21 opening computation as lines of Yul pieces (text,
  addresses, loads, point variables, `for` loops), for the verifier with the key embedded.
- `field`, `transcript`: BN254 scalar-field values (through `halo2curves`) and the
  verifying key's transcript digest (through `blake2b_simd`).
- `vka`: the 32-byte words of a rendered verifying artifact (through `regex`).

`app/` converts words to and from `ruint`'s `U256` and writes the opening computation's lines
out as Yul text.
