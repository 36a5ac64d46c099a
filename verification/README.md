# optipng-rs

A multi-threaded PNG optimizer and converter. It searches through the settings
of the deflate encoder, reduces bit depth, color type and palette where that
loses nothing, and writes a file only if its pixel data get smaller.

The library in `src/` is written in Verus. Every function states what it does,
and the proofs are checked with the code. It computes on plain values only:
files, threads, progress bars and the PNG codec are left to the program in
`app/`.

## Modules

| module | what it holds |
| --- | --- |
| `cli` | the command line |
| `scan` | which files are taken up, and where output goes |
| `chunk_parser`, `copies` | checksums and chunks of PNG files, copies that keep the compressed pixel data, and what holds of them |
| `decoders`, `tga`, `packets`, `netpbm` | images in other formats |
| `reduction`, `palette`, `raster` | bit depth, color type and palette reduction |
| `lossless` | the reductions keep every pixel, never grow, and obey their switches |
| `trials`, `encoding` | presets and order of trials, what the encoder is told |
| `prepare`, `scheduler`, `output` | from a loaded image to its trials, which work comes next, what is written |
| `runs` | what holds of the scheduler over all that happens to it |
| `models`, `text`, `utils` | shared types and helpers |

Functions whose names begin with `law_` state what holds of the library as a
whole.

## What is not proved

`netpbm` relies on `std::str::from_utf8`; its contract is stated at
`utf8_text`. Paths are carried through as `std::path::PathBuf` and never looked
into.

Sizes are compared, summed and counted in integers. Percentages and the units
of sizes are computed with floating point, in `app/`.
