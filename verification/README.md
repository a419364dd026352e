# speculative-decoding-bench

A verified simulation harness and benchmark for speculative decoding: a small
draft model proposes `k` tokens ahead, a large target model verifies them in one
batched pass, and the longest correct prefix is accepted.

A token `x` that the draft sampled from `q` is accepted with probability
`min(1, p(x) / q(x))`; on rejection the token is resampled from
`norm(max(0, p - q))`. For distributions `p` and `q` of the same total mass,
whatever `q` is, the emitted token is distributed as the target's `p`. That is a
theorem here, proved of the functions that the code computes; where the totals
differ, another theorem says by how much the chance of a token does.

## Numbers

There is no floating point in the library. Probabilities, rates and ratios are
fixed-point numbers with eighteen decimal places, held as integers in units of
`1 / ONE`. A uniform draw is an integer below `DRAWS = 2^53` and stands for the
double `draw / 2^53`. Comparisons are exact, quotients and products are rounded
down and their contracts say so, and normalized weights add up to exactly one. A
draft's blend with the uniform distribution is rounded up token by token, so that
it keeps the order of the masses; it exceeds one by less than a unit per token.

A number prints as the double nearest to it does: 379750 tokens in 200000 rounds
are 1.89875 per round and print as `1.8987`, because the double nearest to 1.89875
lies below it.

## Layout

| Module | Holds |
| --- | --- |
| `rng` | `xoshiro256**` seeded by `SplitMix64`, uniform draws, categorical sampling |
| `sampling` | the acceptance rule, the residual distribution, one speculative step |
| `preservation` | the theorem: the output distribution is that of the target |
| `draws` | the same, counted over the finite number of draws |
| `means` | the means of rounds, simulations and trials over all draws |
| `models` | the `Model` trait and `SyntheticModel` draft/target simulators |
| `analytical` | expected tokens per round, expected speedup, best draft length |
| `rounds` | simulation of verification rounds |
| `bench` | pairs of an exact acceptance rate, the `k x alpha` sweep |
| `cost` | tokens over the cost of a round, at any cost ratio |
| `report`, `text` | table and CSV output |
| `fixed`, `mass`, `apportion` | arithmetic, weights, normalization |

Proof functions named `law_...` state what holds of the library as a whole.

`app/` is the command-line program: it runs the default sweep and prints the
table. `tests/` runs the library on concrete values.
