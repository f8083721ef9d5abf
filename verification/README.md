# dqsim

Simulation of quantum circuits, with the logic of the simulators verified by Verus.

Three simulators share one kind of circuit:

- the state-vector simulator keeps all amplitudes;
- the simulator with matrix product states keeps one tensor for each qubit, and bonds between
  neighbours;
- the simulator of Clifford circuits keeps a tableau of stabilizers.

`src/` is the library. Amplitudes are `num_complex::Complex64` values. Their arithmetic goes
through small trusted functions in `complex.rs`, and the contracts of the library are written in
the names that stand for the results. Sines, cosines, moduli and singular value decompositions
differ in their last digits between platforms; what they can come out as is a relation. Draws
come from `ChaCha8Rng`, which a seed fixes.

| modules | contents |
| --- | --- |
| `complex`, `random`, `text`, `bits`, `counts`, `clock` | numbers, draws, words, bits, tallies, times |
| `instruction`, `circuit`, `gate_matrix`, `gates`, `gate_error` | circuits and their gates |
| `engine`, `wide_gate`, `measure`, `sampling` | kernels on amplitudes |
| `fusion`, `truncation`, `terminal` | what is done to a circuit before it runs |
| `statevector`, `statevector_shots` | the state-vector simulator |
| `mps_*`, `mps` | the simulator with matrix product states |
| `stabilizer`, `stabilizer_shots` | the simulator of Clifford circuits |
| `pblock` | blocks of qubits that grow together |
| `config`, `codecs`, `profiling`, `guards` | settings, modes, options, tests of circuits |
| `engine_laws`, `stabilizer_laws`, `run_laws` | what holds of several functions together |

`app/` is the Python module around the library: JSON, the environment, files and threads.
`tests/` run the library.
