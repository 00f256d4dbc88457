//! Readers, decoders and encoders for the asset formats of the Her Interactive
//! adventure games: AVF images, HIS sounds, CIFTREE archives and scene files.

pub mod avf;
pub mod avf_encoder;
pub mod byte_reader;
pub mod ciftree;
pub mod export_png;
pub mod extractor;
pub mod gui;
pub mod his;
pub mod his_backend;
pub mod his_encoder;
pub mod image;
pub mod lzss;
pub mod lzss_encode;
pub mod rgb;
pub mod scene;
pub mod text;
