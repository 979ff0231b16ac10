//! CTC forced alignment: audio emissions and a transcript in, word timings out.

pub mod alignment;
pub mod audio;
pub mod chars;
pub mod checkpoint;
pub mod config;
pub mod cpu_engine;
pub mod ctc;
pub mod device;
pub mod emissions;
pub mod guarantees;
pub mod inference;
pub mod json;
pub mod kernels;
pub mod layout;
pub mod network;
mod parallel;
pub mod postprocess;
pub mod prebuilt_ptx;
pub mod raw_tensor;
pub mod rows;
pub mod text;
pub mod transcript;
pub mod weights;
pub mod windows;
