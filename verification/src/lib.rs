//! Edit-distance alignment of two byte sequences: global, prefix and infix
//! search, the places where the best alignments end and start, the edit
//! operations of one best alignment, and their CIGAR text.
#![allow(non_snake_case)]
#![allow(non_camel_case_types)]
#![allow(non_upper_case_globals)]

pub mod distance;
pub mod windows;
pub mod bits;
pub mod bitvector;
pub mod edlib;
pub mod alphabet;
pub mod band;
pub mod profile;
pub mod engine;
pub mod locate;
pub mod traceback;
pub mod search;
pub mod cigar;
pub mod laws;
