//! `bitx`: structures with bit-precise fields, big-endian and MSB-0.
//!
//! A `bits!` definition is read from its tokens (`ast`), checked (`hir`),
//! and planned into the reads that its generated code performs (`cg`),
//! with proofs that every getter's plan reads exactly the bits of its field;
//! `cg` also writes the tokens of every generated item.
//! The offset syntax (`byte.bit name: uN`) has its own reader and checks
//! (`off`, `field`, `data`) and the tokens of its getters (`reader`).

pub mod ast;
pub mod cg;
pub mod data;
pub mod error;
pub mod field;
pub mod hir;
pub mod lit;
pub mod num;
pub mod off;
pub mod reader;
pub mod text;
pub mod tt;
