//! The byte-bucketing algorithms: each one partitions or fully sorts a
//! bucket, and each is proved against the scatter model.

pub mod out_of_place_sort;
pub mod comparative_sort;
pub mod lsb_sort;
pub mod scanning_sort;
pub mod mt_lsb_sort;
pub mod ska_sort;
pub mod lr_lsb_sort;
