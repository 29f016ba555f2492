pub mod lazy_dataset;
pub mod ostia_compress;
pub mod soundness;
