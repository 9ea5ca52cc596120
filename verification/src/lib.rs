pub mod catalog;
pub mod exif;
pub mod laws;
pub mod order;
pub mod pipeline;
pub mod scan;
pub mod strutil;
pub mod thumb;
pub mod timefmt;
