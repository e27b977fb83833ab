//! Timeline assembly, ordered reassembly of parallel results, glyph matching
//! and timelapse sampling for folders of timestamped video clips.

pub mod glyph;
pub mod timelapse;
pub mod timeline;
pub mod workers;
