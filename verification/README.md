# rawgrep (verified core)

rawgrep searches text by reading files straight from the block device. This crate is
its core logic, written in Verus and proved against its contracts:

- `src/extractor.rs`: required-literal extraction from a parsed regular expression
  (`regex-syntax` parses; the tree is converted node for node), and the fragment
  hashes handed to the fragment cache.
- `src/literal_laws.rs`: what an expression matches, and the soundness of extraction:
  every extracted literal occurs in every match.
- `src/fragments.rs`: fragment hashing, the fragment presence scan (scalar, and the
  8-lane and 4-lane shapes of the AVX2 and NEON kernels, written safely), and the laws
  that relate them.
- `src/binary.rs`, `src/binary_ext.rs`: byte-order marks, the binary-content heuristic,
  and the sorted lookup tables of binary extensions and reserved tool directories.
- `src/run_temperature.rs`: page-cache temperature with hysteresis, and the ring of
  recent inode hints.
- `src/topology.rs`, `src/color.rs`, `src/logger.rs`, `src/error.rs`, `src/tracy.rs`,
  `src/unwrap_.rs`: worker placement, terminal colors, logging, errors, profiler hooks.

`app/` holds what the library is handed from the process: environment variables,
terminal and CPU-feature detection, signal handling, system calls, process-wide
state, and the `Display` form of the error type.
