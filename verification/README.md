# zensr

The integer core of a CPU super-resolution experiment harness, written in
Verus: every function under `src/` carries a `requires`/`ensures` contract
that Verus proves, and the library states its laws as public proof functions.

- `src/` — the verified library: JPEG header and quant-table scanning,
  coefficient windows and statistics, tile planning and tile cutting/pasting,
  weight-file layouts and decoding (f16 and int8 as bit patterns), conv
  weight packing and pixel shuffles, RGB8 crops and maps, PPM, eval-split
  and file-name parsing, and thin trusted wrappers over the zenjpeg, zenpng
  and zenresize codecs.
- `tests/` — tests of the library on concrete values.
- `app/` — plain Rust around it: file and process I/O, the threaded tile
  runner, and the floating-point parts (metrics, guards, consistency
  projection, f32 views of the weight decoders).
