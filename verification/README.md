# key_art

Art that encodes data: bytes are drawn into a grid of brightness characters,
one cell at a time, each cell's brightness chosen by an arithmetic coder from
a distribution that depends on the cells already drawn around it. Reading the
image back replays the drawing and recovers the bytes.

- `src/` is the verified library (Verus):
  - `pixels.rs`: the brightness levels and their characters;
  - `spiral.rs`: the order in which the canvas grows and is drawn;
  - `art.rs`: the canvas, the neighbourhoods it hands to the coder, rendering;
  - `image.rs`: the text form of an image and reading it back;
  - `reader.rs`: collecting an image typed in line by line;
  - `framing.rs`: the length byte and the check that an image reads back;
  - `hexdigits.rs`: hex text in and out;
  - `flags.rs`: command options.
- `app/` is the command-line program: argument handling, files and standard
  input, and the arithmetic coding, which uses the `fractional_bitstream` crate.
  That crate is not published on crates.io, so `Cargo.toml` does not list it
  and `app/` builds only where it is provided.
- `tests/` runs the library on concrete values.
