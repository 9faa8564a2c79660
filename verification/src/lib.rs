//! A verified renderer for multi-scene theatrical scripts.
//!
//! Given line-numbered dialogue streams (one per performer per scene) and a
//! sequence of scenes, the library produces a single globally ordered
//! narration with entrance and exit annotations across scene boundaries.
//! The library itself performs no I/O: callers hand it the lines read from
//! the script, configuration and dialogue files, and it hands back the
//! narration as a sequence of [`declarations::Event`] values together with
//! any advisory [`declarations::Warning`]s.

pub mod declarations;
pub mod text;
pub mod sorting;
pub mod player;
pub mod scene_fragment;
pub mod play;
pub mod return_wrapper;
