//! A streaming PNG decoder.
#![allow(unused_imports)]

pub mod batch_laws;
pub mod budget;
pub mod checksum;
pub mod checksum_laws;
pub mod chunk_laws;
pub mod cut_laws;
pub mod decode_laws;
pub mod decoder;
pub mod encoding;
pub mod error;
pub mod filter;
pub mod header;
pub mod inflate;
pub mod last_error;
pub mod metadata;
pub mod netpbm;
pub mod open;
pub mod open_laws;
pub mod output_laws;
pub mod palette;
pub mod pam;
pub mod png;
pub mod png_laws;
pub mod ppm;
pub mod report;
pub mod report_laws;
pub mod scanlines;
pub mod step_laws;
pub mod stream;
