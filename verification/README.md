# luna_model

Symbolic modelling of optimization problems, verified with Verus: an environment of
typed variables (real, integer, binary, spin), polynomial expressions of any degree over
them, named constraints, and models that combine an objective with constraints.

Coefficients are 64-bit integers. Products of variables are kept in a canonical form
that applies the arithmetic of the variable types (a binary variable times itself is
itself, a spin variable times itself is one), and every operation is specified by the
value that the resulting expression takes at each sample of values of the right types,
and, for products of term lists, by the coefficient that each monomial receives.

Layout:

- `src/` is the verified library: `environment`, `monomial` (canonical products),
  `expression`, `addition`, `multiplication` (with `multiplication::constant`, which
  puts the multiples of a term by a constant into a result term), `products` (products of linear,
  quadratic and higher-order term lists, case by case), `constant`, `creation`, `inspection`,
  `evaluation`, `substitution`, `removal` (taking a variable out of an environment and
  renumbering expressions to match), `separation`, `constraint`, `collection`, `model`,
  `operations`, `ordering` (the order in which terms are listed), `text`, `abi`, `errors`,
  `types`, and `laws`, which states the
  properties that relate several operations.
- `tests/` exercises the library on concrete values.
- `app/` holds what stays outside the verified library: fresh environment identities
  from a process-wide counter, bounds and evaluation on real (floating-point) values,
  and the check of a Python host's capsule ABI.
