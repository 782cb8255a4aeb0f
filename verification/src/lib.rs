pub mod counts;
pub mod fastq;
pub mod input;
pub mod report;
