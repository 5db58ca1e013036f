# qbsdiff

A verified delta compressor that writes bsdiff 4.x patches.

- `src/` is the library. Verus proves every function against its contract, but for the few that
  call another crate: what is assumed of those calls stands in `index`, `encoder` and `parallel`.
  - `bsdiff`: the compressor and its settings, and what holds of its patches.
  - `search`, `parallel`: the search for matches, over a whole target or chunk by chunk.
  - `model`, `similar`: what the search computes.
  - `control`, `patch`, `pack`: control records, what applying a patch gives, the patch file.
  - `index`, `encoder`: the suffix array and the bzip2 encoder.
- `app/` writes patches to any `std::io::Write`.
- `tests/` runs the library.
