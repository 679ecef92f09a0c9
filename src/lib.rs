//! Chunked re-execution of a long program trace: each chunk fits a
//! fixed row budget, is checked row for row against the full reference
//! execution, and hands its final registers and the memory pages that the
//! next chunk touches to that chunk as its bootloader input.

pub mod memory;
pub mod trace;
pub mod bootloader;
pub mod controller;
pub mod backend;
