# qoala

The verified core of QOALA, a GRAPE optimal-control package for coupled
two-level spin systems, and of ESCALADE, its broadband single-spin
companion.

`src/` holds the integer and text logic the numerical layers are built
around, each function with a Verus contract:

- `prop_index`: the sparse propagator index tables for spherical-tensor and
  Zeeman bases, in Liouville and Hilbert space;
- `config`: how a configuration's state space, spin count, multiplicities,
  operator-splitting ladder and power-level ensemble are resolved, and the
  uncoupled index table;
- `options`: the validation of control options, in the order they are
  read, with the defaults filled in, and the spin-control layout;
- `splittings`: the stage sequences of each operator-splitting order;
- `gates`: the bit arithmetic of gate embeddings and the checks on them;
- `parallel`: a fold spread over threads whose result does not depend on
  them;
- `escalade`: how an evaluation is cut into pieces within a memory budget,
  and how an ESCALADE problem's spin count is settled;
- `optim`, `objfun`, `drivers`, `rodrigues`, `report`, `text`: counters,
  console table layout, shape checks, report lines and number text;
- `gui`: the front end's labels, spin-pair layout, file-name slugs and the
  percent-encoded form a setup takes in a link.

Laws that relate several functions are public proof functions named
`law_*`.

`app/` is the unverified shell: console and file output, floating-point
number formatting, matrix assembly around the verified index logic, and the
serde forms of the front end's types.  `tests/` runs the library.
