# population_scaling

How ternary agent dynamics ({0, 1, 2} strategies playing noisy rock-paper-scissors)
change as the population grows from tens to tens of thousands of agents.

- `src/` is the verified library (Verus): the xorshift64 generator and its stream,
  the game rule, strategy draws, game pairings, stable ranking by fitness,
  selection with mutation, strategy counts, the cluster rule and the plateau search.
- `app/` is ordinary Rust around it: agents with floating-point fitness, payoffs with
  noise, distributions, entropies, power-law fits, Jensen-Shannon divergences and
  the text report.
- `tests/` exercises the library.
