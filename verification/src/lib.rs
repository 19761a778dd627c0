//! Decoder and disassembler for the JVM class-file binary format.
//!
//! The decoder turns a byte buffer into a structured class record: constant
//! pool, fields, methods and nested attributes. The disassembler renders that
//! record as text in the style of the `javap` tool. All decoding errors are
//! typed results; no input makes the library panic.

pub mod byte_array;
pub mod class_loader;
pub mod class_printer;
pub mod descriptor_parser;
pub mod error;
