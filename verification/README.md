# stark_boolean_verifier

What does it cost to check the final compressed STARK proof of a zkVM inside a
Boolean circuit? This library keeps the answer's parts for three systems,
Risc0, SP1 and Stwo: the operations that each verifier performs, the bytes of
each proof beyond its public inputs, the parameters of each proof system, and
how many gates the primitives take that price the operations.

The library under `src/` is verified with Verus.

- A gadget is recorded as a list of word operations on wires. Which operations
  it takes, by kind, width and constant, is stated, for they are what the gates
  are counted of. What its output words carry is proved for every input, word by
  word, and on reduced inputs that is field arithmetic: BabyBear, KoalaBear, M31
  and QM31, the two Poseidon2 permutations and BLAKE2s.
- Every gadget is run on several inputs. Its gate count is recorded only where
  each output equals the native reference and the count is the same on all.
- Operation ledgers account for every operation once: the hash's share, the
  exponentiations and the residual make up the measured totals.
- Lock files, the artifact manifest, compiled programs and output preimages are
  read by functions with exact contracts.

`tests/` runs the library against the native crates. `app/` is the program
around it: it runs the circuits with `g16ckt`, the provers and the verifiers,
and reads and writes files.
