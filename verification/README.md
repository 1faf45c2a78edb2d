# policy_sim

A policy simulation sandbox: individuals with stats and traits, policies read
from YAML that change how individuals act, metrics refreshed on a schedule,
and rare "black swan" events.

- `src/` is the verified library (Verus). It decides everything that does not
  need floating point: reading policies and partial policies from YAML and
  completing them from templates, when events start and how long they act,
  which metrics a tick refreshes, the structure of custom metric formulas,
  head counts, and which action weights an individual's traits raise.
- `app/` is the program around it. It keeps the floating-point stats, weights,
  probabilities and metric values, draws random numbers, and applies what the
  library decides.
- `tests/` exercises the library.
