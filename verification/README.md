# tuenti

Solutions to a set of programming-contest problems, written as a verified
library with Verus and a thin program around it.

- `src/` is the library. Every function there carries a contract that Verus
  proves; where a computation belongs to an outside crate (`crc32fast`,
  `num`, `regex`), the call sits in a small trusted wrapper whose contract
  says what the crate does.
  - `rps`, `tournament`, `tuentistic`, `keyboard`, `partitions`, `fortress`,
    `ranking`, `modulus`, `edits`, `bathrooms`: one problem each, from
    reading a case to the text of its answer.
  - `labyrinth` and `paxos`: the two problems played against a server, as
    state machines that take what the server said and return what to send.
  - `text`: parsing and rendering helpers shared by the others, with the
    rules of `str::parse`, `str::split` and `str::lines`.
- `app/` is the program: `tuenti <problem>` reads the input files (or opens
  the connections), calls the library, and writes the answers. The integer
  program of `bathrooms` is built and solved there, with `lp-modeler` and
  GLPK.
- `tests/` runs the library on concrete cases.
