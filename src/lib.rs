//! The core of a parallel AV1 re-encoding pipeline: scene lists and
//! chunks, resumable progress, crop detection, decode strategies that cut
//! 4:2:0 frames out of decoder planes (with 10-bit packing of four samples
//! into five bytes), and the conversion of packets into encoder input.
#![allow(non_camel_case_types)]

pub mod pack;
pub mod plane;
pub mod ffms;
pub mod decode;
pub mod crop;
pub mod text;
pub mod chunk;
pub mod pipeline;
pub mod encoder;
pub mod progs;
pub mod args;
pub mod merge;
