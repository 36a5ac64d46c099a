//! Lossless PNG optimisation: image reduction, trial planning, chunk
//! copying, external image decoding and the scheduling of the work.
//!
//! Everything here computes on plain values. Reading and writing files,
//! running the deflate encoder and drawing progress bars is left to the
//! program around the library.
pub mod chunk_parser;
pub mod cli;
pub mod copies;
pub mod decisions;
pub mod decoders;
pub mod encoding;
pub mod full_reduction;
pub mod lossless;
pub mod models;
pub mod netpbm;
pub mod netpbm_files;
pub mod options;
pub mod output;
pub mod packets;
pub mod palette;
pub mod png_files;
pub mod prepare;
pub mod presets;
pub mod raster;
pub mod reduction;
pub mod runs;
pub mod scan;
pub mod scheduler;
pub mod targa_files;
pub mod text;
pub mod tga;
pub mod trials;
pub mod utils;
