# Streaming benchmark

Measures uploads and downloads of 10 to 1000 MiB that are streamed in chunks of 1 to 64 MiB. The
server hashes (SHA-512) and encrypts (AES-256-GCM, 64 KiB blocks) what it receives and sends random
bytes; the client warms up, sends requests at a fixed rate, and reports percentiles of latency and
throughput.

- `src/` is the library, written and proved in Verus. Floating-point results are computed on an
  exact model of IEEE 754 double precision (`rounding`, `binary64`), so every number in a report has
  a contract.
- `app/` is the program: `streaming-bench server` and `streaming-bench client`. It does the network,
  the queues, the threads, the clock and the files around the library.
- `tests/` runs the library on concrete values, beside the hardware's own floating point and the
  crates it relies on.

The library relies on other crates for SHA-512 (`sha2`), AES-GCM (`aes-gcm`), hexadecimal (`hex`),
random bytes (`rand`), the histogram (`hdrhistogram`) and comma-separated records (`csv`). What it
takes for granted of them is stated in `crypto.rs`, `histogram.rs` and `comma.rs`.
