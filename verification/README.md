# iso2x

Conversion between Xbox disc image formats and packages, as a library whose behaviour is stated in
contracts and proved with Verus.

- `src/` is the library.
  - `cci`, `ciso`, `god`, `xiso`: disc images, read and written sector by sector.
  - `stfs`: Xbox 360 packages with their hash tables, listing and block chains.
  - `zar`: compressed archives.
  - `extracted`: the files of an image or archive, one by one.
  - `scrub`: what is cut or zeroed of an image that is written whole.
  - `session`: one kind of session over all output formats.
  - `source`: what images and files are read from.
  - `pieces`: what output that is handed out in pieces adds up to.
  - `options`, `utils`, `bytes`, `digest`, `lz4`: what these share.
- `tests/` runs the library, with the compression and hash crates linked.
- `app/` is the WebAssembly module around it: callbacks for reading, options, and the rebuild of disc
  file systems.

Each format states what a session hands out from beginning to end, and what its reader makes of it:
see `round_trip.rs` in `cci`, `ciso`, `god`, `stfs` and `zar`, and the end of `xiso/write.rs` and of
`extracted.rs`.
