# flp-extract-fxp

Recovers Serum presets from FL Studio `.flp` projects and writes them as
`.fxp` files that pass Serum2's Serum import checks, and patches preset
metadata in `.fxp` files and projects. The library also applies planned
Serum-to-Serum2 rewrites to a project, given the converted Serum2 records,
and writes the integer and text parts of a converted state tree (names,
macro names, MIDI map, embedded streams, classic LFO blocks); the rest of the preset-state
importer (its parameter mapping is floating-point work) is not part of it,
so the program has no `convert` command.

The library (`src/`) is written in Verus. Its functions carry
`requires`/`ensures` contracts over a mathematical model of the bytes they
read and write, and Verus proves the code against them. The exceptions are
the thin wrappers around outside code (zlib, zstd, MD5, paths, hashing),
whose contracts are trusted, and the path and hashing helpers, of which
nothing is claimed.

- `bytes`, `strs` — integer fields in byte buffers; decimal / hex text and
  string helpers.
- `flp` — the FLP container: `FLhd`/`FLdt`, event framing, plugin records.
- `scan`, `serum` — Serum detection and preset-chunk recovery.
- `zlibio`, `fxp` — zlib streams; building, validating and patching `.fxp`
  files.
- `zip` — zipped loop packages.
- `s1state` — the Serum preset state.
- `preset_meta`, `embedded`, `classic_lfo` — the name, macro, MIDI-map and
  embedded-stream keys of a converted Serum2 state tree, and the classic
  LFO block layout.
- `s2tree`, `serum2state`, `serum2preset` — the Serum2 state tree (canonical
  CBOR), `XferJson` records and preset files.
- `flpconv` — planning and applying Serum-to-Serum2 rewrites, and metadata
  patching inside a project.
- `naming`, `report`, `commands` — output names, command reports, and what
  the commands compute between reading and writing.
- `reread`, `cbor_roundtrip`, `json_fields` — proofs that rewritten
  projects, encoded trees and the JSON headers the library writes read back.
- `inputs` — the glob matching and ordering of command-line inputs.

`app/` holds the command-line program (argument parsing, file I/O, JSON
output); `tests/` the tests.
