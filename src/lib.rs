//! Parallel ingestion of FASTA-style sequence files into ragged arrays.
pub mod error;
pub mod mapping;
pub mod concat;
pub mod ragged;
pub mod fasta;
pub mod ingest;
pub mod color;
