pub mod bucket;
pub mod byte_vec;
pub mod compy;
pub mod compy_builder;
pub mod id_set;
pub mod key;
