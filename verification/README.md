# task_maker

The verified core of a tool that prepares programming-contest tasks: it reads the task
descriptions (`task.yaml`, `gen/GEN`, `gen/cases.gen`, `gen/gen.toml`), validates the execution
DAGs, schedules their execution groups on workers, frames the encrypted messages between the
parts of a distributed evaluation, and takes the decisions of the sanity checks run on a task.

- `src/` is the library, written in Verus: every function has a contract, and every function
  but the trusted wrappers is proved against it. Calls into outside crates (regex, blake3,
  rust-crypto, scrypt, unic, wildmatch, shell-words) and a few std functions go through those
  small wrappers, marked `#[verifier::external_body]`: Verus takes their contracts on trust, and
  their doc comments say what is claimed of the outside function.
- `tests/` runs the library on concrete cases.
- `app/` is plain Rust around the library: file system, processes, TCP streams, the
  serialization with serde, and the floating point scores.
