//! Extraction of dashcam telemetry from RIFF/AVI recordings into GPX track logs.
//!
//! - `container`: the trailing `idx1` index and the payloads it lists.
//! - `record`: decoding one telemetry line into a sample.
//! - `decimal`: the exact decimal numbers of a line, and their rendering.
//! - `track`: track points and logs, and the deduplicated log of a recording.
//! - `merge`: joining the logs of consecutive recordings into segments.
//! - `gpx`: the GPX document of a log.
//! - `media`: a recording by file name, from its bytes to its track.
//! - `time`: local timestamps, read through chrono.
//! - `hemisphere`: what the hemisphere letters of a line decide.
//! - `text`: position-based scanning of byte lines.

pub mod container;
pub mod decimal;
pub mod gpx;
pub mod hemisphere;
pub mod media;
pub mod merge;
pub mod record;
pub mod text;
pub mod time;
pub mod track;
