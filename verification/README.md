# turmoil_wasm

The browser-facing layer of the Turmoil network simulator, as a verified
Verus library.

- `src/net.rs`: `WriteHelper`, a writer over a borrowed byte buffer that copies
  as much of each text as fits and advances to the unwritten part.
- `src/bindings.rs`: what the JavaScript bindings decide and report on their
  own: the status text of a simulation, the messages of their failures, and
  the run of a given number of simulation steps that stops at the first
  failing step.
- `app/lib.rs`: the `wasm_bindgen` types that hold the simulator and hand its
  results to the library. The simulator itself is not part of this crate.
- `tests/`: tests of the library on concrete values.
