pub mod color;
pub mod frame;
pub mod cluster;
pub mod centroid;
pub mod track;
pub mod export;
pub mod video;
