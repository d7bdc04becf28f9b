pub mod alleles;
pub mod encoding;
pub mod fasta;
