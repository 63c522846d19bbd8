//! Playback worker core: parsing of track URIs, the decisions of the
//! playback worker loop, and the rules of the two entry points that start the
//! worker and hand it commands.
pub mod track_uri;
pub mod worker;
pub mod entry;
