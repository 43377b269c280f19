//! Finds the security catalogs of an offline Windows image that vouch for none
//! of its files.

pub mod asn1;
pub mod asn1_laws;
pub mod catalog;
pub mod catalog_laws;
pub mod cli;
pub mod cli_laws;
pub mod digest;
pub mod digest_set;
pub mod hashing;
pub mod operations;
pub mod operations_laws;
pub mod order;
pub mod output;
pub mod output_laws;
pub mod path;
pub mod path_laws;
pub mod pe;
pub mod pe_laws;
pub mod report;
pub mod report_laws;
pub mod scan;
pub mod scan_laws;
pub mod sort;
pub mod text;
pub mod text_laws;
