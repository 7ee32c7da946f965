# binius64

A proof system over binary fields whose witness is a vector of 64-bit words, written and verified
in Verus. Each function states in its contract what it computes, over plain mathematical models
(sequences of field elements, sums, multilinear evaluations), and the properties that hold across
functions are public proof functions.

## Layout

| Module | What it holds |
| --- | --- |
| `algebra`, `bits` | Groups and fields of characteristic two, finite sums, bits of integers |
| `ghash`, `ghash_sq`, `rijndael` | Multiplication in GF(2^128), its quadratic extension and GF(2^8), in several implementations that agree |
| `field` | The field types, their packed forms and lane operations |
| `math` | Multilinear equality, bit reversal, additive transforms, Reed-Solomon codes |
| `word`, `constraint_system` | Words, shifts and constraints on shifted words |
| `prover` | Folding words along the bit axis and along the word axis |
| `sumcheck` | Rounds, provers, fractional-addition checks, and following a run from its messages |
| `shift` | The shift reduction, from keys to the evaluation of the wiring multilinear |
| `hash` | SHA-256 in parallel and BLAKE3 compression |
| `frontend`, `circuits`, `recursion` | Gate graphs and the passes and circuits built on them |
| `iop`, `crossfield` | The recording setup channel and the cross-field switch |
| `utils` | Serialization, task sizes, seeded lists |

`app/` holds what touches the outside: environment overrides, the thread pool, random generators
and the loop around the cross-field switch's arithmetic.

## Where to start

- `shift::prove::prove` states everything a run of the shift reduction sends and draws, step by
  step in order.
- `shift::completeness::true_claims_are_accepted` shows that a run on claims that hold is accepted.
- `shift::agreement::wiring_evaluations_agree` shows that both sides evaluate the same wiring.
- `crossfield::laws::receiving_gets_what_was_sent` shows that the two sides of the switch fit
  together.
- `frontend::zero_fold::zero_propagation` rewrites a gate graph and keeps its values.

## What is trusted

Calls into `sha2`, `bytemuck` and `cranelift-entity` go through small functions whose contracts
are believed; each says above it which function it calls and what is claimed.
