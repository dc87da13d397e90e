//! A recording of the dashcam: its file name, the telemetry lines of its
//! container, and the track they make.

use vstd::prelude::*;
use crate::container::{ContainerError, stream_index, payloads, find_stream_index, read_payloads};
use crate::track::{GPXTrackLog, track_of, build_track_log, no_adjacent_repeats};

verus! {

/// The tag of the telemetry stream's chunks, `02tx`.
pub open spec fn telemetry_tag() -> Seq<u8> {
    seq![0x30u8, 0x32u8, 0x74u8, 0x78u8]
}

/// Errors of reading one recording.
#[derive(Clone, Copy, Debug, PartialEq, Eq, Structural)]
pub enum MediaError {
    InvalidExtension,
    Container(ContainerError),
}

/// The extension of a path's file name, when it has one and it is UTF-8.
pub uninterp spec fn extension_of(p: Seq<char>) -> Option<Seq<u8>>;

/// The file name of a path without its extension, when it has one.
pub uninterp spec fn file_stem_of(p: Seq<char>) -> Option<Seq<char>>;

/// A path joined with a further component.
pub uninterp spec fn joined_path_of(dir: Seq<char>, name: Seq<char>) -> Seq<char>;

/// Relies on `std::path::Path::extension` and `OsStr::to_str`: the result is a
/// function of the path text alone.
#[verifier::external_body]
fn path_extension(p: &str) -> (r: Option<Vec<u8>>)
    ensures
        match r {
            Some(v) => extension_of(p@) == Some(v@),
            None => extension_of(p@) is None,
        },
{
    std::path::Path::new(p).extension().and_then(|e| e.to_str()).map(|e| e.as_bytes().to_vec())
}

/// Relies on `std::path::Path::file_stem` and `OsStr::to_str`: the result is
/// a function of the path text alone.
#[verifier::external_body]
fn path_file_stem(p: &str) -> (r: Option<String>)
    ensures
        match r {
            Some(s) => file_stem_of(p@) == Some(s@),
            None => file_stem_of(p@) is None,
        },
{
    std::path::Path::new(p).file_stem().and_then(|e| e.to_str()).map(|e| e.to_string())
}

/// Relies on `std::path::Path::join`: the result is a function of the two
/// texts alone.
#[verifier::external_body]
fn path_join(dir: &str, name: &str) -> (r: String)
    ensures
        r@ == joined_path_of(dir@, name@),
{
    std::path::Path::new(dir).join(name).to_string_lossy().into_owned()
}

pub open spec fn ascii_lower(b: u8) -> u8 {
    if 0x41u8 <= b && b <= 0x5au8 {
        (b + 0x20u8) as u8
    } else {
        b
    }
}

/// `avi` in any case.
pub open spec fn is_avi_extension(e: Seq<u8>) -> bool {
    e.len() == 3 && ascii_lower(e[0]) == 0x61u8 && ascii_lower(e[1]) == 0x76u8 && ascii_lower(e[2])
        == 0x69u8
}

fn to_ascii_lower(b: u8) -> (r: u8)
    ensures
        r == ascii_lower(b),
{
    if 0x41u8 <= b && b <= 0x5au8 {
        b + 0x20u8
    } else {
        b
    }
}

/// The output path of a recording: its file stem with `.gpx`, in `out_dir`.
pub open spec fn output_path_of(in_file: Seq<char>, out_dir: Seq<char>) -> Option<Seq<char>> {
    match file_stem_of(in_file) {
        Some(stem) => Some(joined_path_of(out_dir, stem + ".gpx"@)),
        None => None,
    }
}

/// The output path of a recording, when its path has a file name.
pub fn get_output_path(in_file: &str, out_dir: &str) -> (r: Option<String>)
    ensures
        match r {
            Some(s) => output_path_of(in_file@, out_dir@) == Some(s@),
            None => output_path_of(in_file@, out_dir@) is None,
        },
{
    match path_file_stem(in_file) {
        None => None,
        Some(stem) => {
            let name = stem.concat(".gpx");
            Some(path_join(out_dir, name.as_str()))
        },
    }
}

/// A recording, known by its file name.
pub struct ZDR055MediaData {
    pub filename: String,
}

/// The telemetry lines of a recording named `name` whose bytes are `buf`.
pub open spec fn stream_data_of(name: Seq<char>, buf: Seq<u8>) -> Result<Seq<Seq<u8>>, MediaError> {
    if !(extension_of(name) matches Some(e) && is_avi_extension(e)) {
        Err(MediaError::InvalidExtension)
    } else {
        match stream_index(buf, telemetry_tag()) {
            Err(e) => Err(MediaError::Container(e)),
            Ok(entries) => match payloads(buf, entries) {
                Err(e) => Err(MediaError::Container(e)),
                Ok(lines) => Ok(lines),
            },
        }
    }
}

impl ZDR055MediaData {
    pub fn new(filename: &str) -> (r: Self)
        ensures
            r.filename@ == filename@,
    {
        ZDR055MediaData { filename: filename.to_owned() }
    }

    /// Accepts only file names with the extension `avi`, in any case.
    pub fn check_filename(&self) -> (r: Result<(), MediaError>)
        ensures
            r is Ok <==> (extension_of(self.filename@) matches Some(e) && is_avi_extension(e)),
            r matches Err(e) ==> e == MediaError::InvalidExtension,
    {
        match path_extension(self.filename.as_str()) {
            None => Err(MediaError::InvalidExtension),
            Some(e) => {
                if e.len() == 3 && to_ascii_lower(e[0]) == 0x61u8 && to_ascii_lower(e[1]) == 0x76u8
                    && to_ascii_lower(e[2]) == 0x69u8 {
                    Ok(())
                } else {
                    Err(MediaError::InvalidExtension)
                }
            },
        }
    }

    /// The telemetry lines of this recording, whose bytes are `contents`: the
    /// payloads of the `02tx` chunks that the index lists, in index order.
    pub fn extract_stream_data(&self, contents: &[u8]) -> (r: Result<Vec<Vec<u8>>, MediaError>)
        ensures
            match (r, stream_data_of(self.filename@, contents@)) {
                (Ok(v), Ok(s)) => v@.map_values(|l: Vec<u8>| l@) == s,
                (Err(e), Err(f)) => e == f,
                _ => false,
            },
    {
        if let Err(e) = self.check_filename() {
            return Err(e);
        }
        let tag: [u8; 4] = [0x30u8, 0x32u8, 0x74u8, 0x78u8];
        assert(tag@ =~= telemetry_tag());
        let entries = match find_stream_index(contents, &tag) {
            Err(e) => return Err(MediaError::Container(e)),
            Ok(v) => v,
        };
        match read_payloads(contents, &entries) {
            Err(e) => Err(MediaError::Container(e)),
            Ok(lines) => Ok(lines),
        }
    }
}

/// The track of a recording whose bytes are `contents`.
pub fn process_media_file(media: &ZDR055MediaData, contents: &[u8]) -> (r: Result<GPXTrackLog, MediaError>)
    ensures
        match (r, stream_data_of(media.filename@, contents@)) {
            (Ok(log), Ok(lines)) => log@ == track_of(lines) && no_adjacent_repeats(log@),
            (Err(e), Err(f)) => e == f,
            _ => false,
        },
{
    match media.extract_stream_data(contents) {
        Err(e) => Err(e),
        Ok(lines) => Ok(build_track_log(&lines)),
    }
}

} // verus!
