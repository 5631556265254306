# schist

The integer core of a photo editor, verified with Verus: reading layered
documents and camera raw files, and deciding what compositing and developing
do. `src/` holds the library; every function states what it returns in its
contract, and the laws that hold across functions stand beside them as proof
functions whose names begin with `law_`.

| Module | What it is about |
| --- | --- |
| `bytes`, `text` | numbers in bytes, and the texts of error messages |
| `geom`, `grid`, `tile` | rectangles of pixels, places in rows, and tiles |
| `blend`, `color`, `path` | blend modes, depths and colour modes, vector paths |
| `psd` | layered documents: header, resources, run-length and zip channels, merged images, vector masks, pixels into tiles |
| `raw` | camera raw files: what a file is, directories, bit streams, one module per vendor format, and what developing a frame takes |
| `layers`, `compositor` | a layer tree as steps of a machine; composited tiles, put together and cached |
| `gpu` | what a graphics device is handed, and how what comes back is cut |

Sensor levels and shooting data are exact quotients (`raw::frame::Ratio`,
`Gain`). Arithmetic on floats is not in the library: `app/` converts at the
edge, carries the plans out on floating-point pixels, and talks to the
graphics device.

What rests on trust, and not on a proof, is marked `external_body` and says
so in its doc comment: byteorder's reads, miniz_oxide's zlib streams, the
maps of rustc-hash, and three functions of the standard library on text.

Decoders that are not part of this crate (lossless JPEG, camera tables, the
formats without a module of their own) hand in their results: see
`raw::Aids`.
