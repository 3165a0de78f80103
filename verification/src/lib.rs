//! Parsing of extended-M3U media playlists.
//!
//! The playlist text is scanned line by line: a mandatory header line, then
//! tags for the protocol version, the target duration, per-segment
//! durations with their resource-locator lines, discontinuity boundaries
//! and an optional end-of-list marker.  The result is a structured
//! [`MediaPlaylist`] whose contract pins it to a line-by-line model of the
//! scan, so that the grouping and accumulation laws can be stated and
//! proved over that model.

pub mod duration;
pub mod laws;
pub mod media_playlist;
pub mod text;

pub use duration::Duration;
pub use media_playlist::DiscontinuitySegment;
pub use media_playlist::MediaPlaylist;
pub use media_playlist::MediaSegment;
pub use media_playlist::ParseError;
