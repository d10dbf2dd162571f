//! Classification and decoding of CAN bus trace lines.
//!
//! `scan::parse_file` classifies every line of a trace file as ignored, invalid
//! or a candidate frame; `scan::finish_scan` settles the candidates once their
//! timestamp texts have been read as numbers, giving the final counts and frames.
pub mod classify;
pub mod decode;
pub mod scan;
pub mod text;
