# orecchiette-sdr-file-rs

File-backed sources of IQ samples for SDR applications: raw interleaved IQ
files, and SigMF recordings; and a writer of SigMF recordings.

- `src/` is the library, verified with Verus. It holds the sample formats, the
  metadata rules, the layout of samples in packets, the playback of a list of
  files, and the content of what a writer writes. It touches no file.
- `app/` is the ordinary Rust around it: files, JSON, threads, channels, and the
  `SdrSource` implementations.
- `tests/` runs the library on values.
