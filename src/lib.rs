//! Groups BED12 transcripts into overlap components.
pub mod cluster;
mod collections;
mod disjoint;
pub mod laws;
pub mod pack;
pub mod record;
pub mod text;
pub mod tracks;

pub use cluster::{cluster, OverlapType};
pub use pack::{buckerize, colorize, components};
pub use record::{Bed12, GenePred, ParseError, SCALE};
pub use tracks::{parse_tracks, Tracks};
