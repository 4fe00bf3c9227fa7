# xpatchlib-core

Deterministic binary delta patches for app update bundles, with the patch
format, the codecs and the replay proved correct by Verus.

A patch is an "XPDL" envelope: the codec name, the size and SHA-256 of the
base and of the updated bundle, and the codec payload. `create` builds one,
`apply` replays it and returns the updated bundle only after both digests
check out.

Codecs: `bsdiff` (suffix-array matcher), `block` (16-byte window
fingerprints, greedy matcher), both encoding a bsdiff-style control stream
("XPBS": add/copy/seek tuples, a delta stream and a literal stream, each
zstd-compressed); `zdict` (the new bundle compressed with the base as zstd
dictionary); `full` (the new bundle recompressed, the baseline).

## Layout

- `src/` the verified library
  - `lib.rs` the codec registry, `create`, `apply`, `patch_info`, and the
    laws that tie them together (a created patch restores the updated
    bundle; patches are functions of their inputs; the header of a created patch)
  - `envelope.rs` the XPDL format: `encode`, `parse`, digest checks
  - `control.rs` the control stream: replay, framing, the segment builder
    and the emitter, with the proofs that emitted streams replay to the
    new bundle and decode back
  - `sais.rs` SA-IS suffix array construction, and `suffix_check.rs` the
    linear-time certificate that proves its output is the sorted suffix
    array (with a comparison sort behind it should the certificate fail)
  - `bsdiff.rs`, `block.rs`, `zdict.rs`, `full.rs` the codecs
  - `bytes.rs`, `digest.rs`, `compress.rs` little-endian helpers and the
    trusted wrappers over `sha2` and `zstd`
  - `error.rs` the error type and the status codes of the C ABI
- `tests/` the test suite
- `app/` platform bindings: file-based replay (streaming for `full`,
  with its steps and checks in the library), the C ABI, JNI and WASM
