pub mod bucket;
pub mod data;
pub mod geohash;
pub mod hotspotmap;
pub mod msg;
pub mod pointer;
pub mod time;
