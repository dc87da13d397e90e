use zdr055_gpx::container::{
    find_stream_index, parse_chunk_header, read_index_entry, read_payloads, AVIIndex, ChunkHeader,
    ContainerError,
};
use zdr055_gpx::media::{process_media_file, MediaError, ZDR055MediaData};

const TX: [u8; 4] = *b"02tx";
const DC: [u8; 4] = *b"00dc";

fn entry(tag: &[u8; 4], flags: u32, offset: u32, size: u32) -> Vec<u8> {
    let mut v = tag.to_vec();
    v.extend_from_slice(&flags.to_le_bytes());
    v.extend_from_slice(&offset.to_le_bytes());
    v.extend_from_slice(&size.to_le_bytes());
    v
}

/// A container with the given chunks and an index listing them, followed by
/// `extra` bytes inside the index body.
fn container(chunks: &[(&[u8; 4], &[u8])], extra: usize) -> Vec<u8> {
    let mut buf = b"RIFF\0\0\0\0AVI ".to_vec();
    let mut index = Vec::new();
    for (tag, payload) in chunks {
        let at = buf.len() as u32;
        buf.extend_from_slice(*tag);
        buf.extend_from_slice(&(payload.len() as u32).to_le_bytes());
        buf.extend_from_slice(payload);
        index.extend(entry(tag, 0x10, at, payload.len() as u32));
    }
    index.extend(std::iter::repeat(0xeeu8).take(extra));
    buf.extend_from_slice(b"idx1");
    buf.extend_from_slice(&(index.len() as u32).to_le_bytes());
    buf.extend(index);
    buf
}

#[test]
fn index_keeps_matching_entries_in_order() {
    let buf = container(&[(&DC, b"v0"), (&TX, b"first"), (&DC, b"v1"), (&TX, b"second")], 0);
    let entries = find_stream_index(&buf, &TX).unwrap();
    assert_eq!(entries.len(), 2);
    assert_eq!(entries[0].get_chunk_id(), TX);
    assert!(entries[0].get_offset() < entries[1].get_offset());
    assert_eq!(entries[0].get_size(), 5);
    assert_eq!(entries[1].get_size(), 6);
    assert_eq!(entries[0].get_flags(), 0x10);
    let lines = read_payloads(&buf, &entries).unwrap();
    assert_eq!(lines, vec![b"first".to_vec(), b"second".to_vec()]);
}

#[test]
fn truncated_trailing_record_is_dropped() {
    let buf = container(&[(&TX, b"a"), (&TX, b"b"), (&TX, b"c")], 7);
    let entries = find_stream_index(&buf, &TX).unwrap();
    assert_eq!(entries.len(), 3);
    let buf = container(&[(&TX, b"a"), (&TX, b"b"), (&TX, b"c")], 15);
    assert_eq!(find_stream_index(&buf, &TX).unwrap().len(), 3);
}

#[test]
fn index_size_beyond_buffer_reads_what_is_there() {
    let mut buf = container(&[(&TX, b"a"), (&TX, b"b")], 0);
    let at = buf.len() - 32 - 4;
    buf[at..at + 4].copy_from_slice(&1000u32.to_le_bytes());
    assert_eq!(find_stream_index(&buf, &TX).unwrap().len(), 2);
}

#[test]
fn last_index_marker_wins() {
    let mut buf = container(&[(&TX, b"old")], 0);
    let mut second = container(&[(&DC, b"v"), (&TX, b"new!")], 0);
    let shift = buf.len() as u32;
    // rebase the second container's offsets onto the concatenation
    let idx = second.len() - 32;
    for k in 0..2 {
        let p = idx + 16 * k + 8;
        let o = u32::from_le_bytes(second[p..p + 4].try_into().unwrap()) + shift;
        second[p..p + 4].copy_from_slice(&o.to_le_bytes());
    }
    buf.extend(second);
    let entries = find_stream_index(&buf, &TX).unwrap();
    assert_eq!(entries.len(), 1);
    assert_eq!(read_payloads(&buf, &entries).unwrap(), vec![b"new!".to_vec()]);
}

#[test]
fn missing_index_is_reported() {
    assert_eq!(find_stream_index(b"RIFF\0\0\0\0AVI ", &TX).err(), Some(ContainerError::IndexNotFound));
    assert_eq!(find_stream_index(b"", &TX).err(), Some(ContainerError::IndexNotFound));
}

#[test]
fn short_index_header_is_reported() {
    assert_eq!(find_stream_index(b"RIFFidx1\x10\0", &TX).err(), Some(ContainerError::IndexHeaderInvalid));
}

#[test]
fn payload_past_end_is_reported() {
    let mut buf = container(&[(&TX, b"abc")], 0);
    let n = buf.len();
    buf[n - 4..].copy_from_slice(&100000u32.to_le_bytes());
    let entries = find_stream_index(&buf, &TX).unwrap();
    assert_eq!(read_payloads(&buf, &entries).err(), Some(ContainerError::ChunkReadError));
}

#[test]
fn invalid_utf8_payload_is_reported() {
    let buf = container(&[(&TX, b"ok"), (&TX, &[0xff, 0xfe])], 0);
    let entries = find_stream_index(&buf, &TX).unwrap();
    assert_eq!(read_payloads(&buf, &entries).err(), Some(ContainerError::EncodingError));
}

#[test]
fn chunk_header_and_entry_decoding() {
    let data = b"idx1\x20\x01\0\0";
    let h = parse_chunk_header(data, 0).unwrap();
    assert_eq!(h.get_fourcc(), *b"idx1");
    assert_eq!(h.get_size(), 0x120);
    assert!(parse_chunk_header(data, 1).is_none());
    let h2 = ChunkHeader::new(*b"02tx", 9);
    assert_eq!((h2.get_fourcc(), h2.get_size()), (*b"02tx", 9));
    let e = entry(&TX, 1, 0x01020304, 77);
    let r: AVIIndex = read_index_entry(&e, 0, 16).unwrap();
    assert_eq!((r.get_chunk_id(), r.get_flags(), r.get_offset(), r.get_size()), (TX, 1, 0x01020304, 77));
    assert!(read_index_entry(&e, 0, 15).is_none());
}

#[test]
fn extension_is_checked_case_insensitively() {
    assert!(ZDR055MediaData::new("/data/REC0001.AVI").check_filename().is_ok());
    assert!(ZDR055MediaData::new("clip.avi").check_filename().is_ok());
    assert_eq!(ZDR055MediaData::new("clip.mp4").check_filename(), Err(MediaError::InvalidExtension));
    assert_eq!(ZDR055MediaData::new("clip").check_filename(), Err(MediaError::InvalidExtension));
    let buf = container(&[(&TX, b"x")], 0);
    assert_eq!(ZDR055MediaData::new("clip.mov").extract_stream_data(&buf).err(), Some(MediaError::InvalidExtension));
}

#[test]
fn media_file_lines_become_a_track() {
    let l1 = b"DEV1:2023-05-01 12:00:00 X:0.01 Y:-0.02 Z:0.03 12.3T 4.0V REC 35.123456 N 139.123456 E 42.5km/h E:1 M:2 EM:3 SA:0 V:5 S:100k 1,2,3";
    let l2 = b"DEV1:2023-05-01 12:00:01 X:0.01 Y:-0.02 Z:0.03 12.3T 4.0V REC 35.123456 N 139.123456 E 42.5km/h E:1 M:2 EM:3 SA:0 V:5 S:100k 1,2,3";
    let l3 = b"DEV1:2023-05-01 12:00:02 X:0.01 Y:-0.02 Z:0.03 12.3T 4.0V REC 35.123500 N 139.123456 E 42.5km/h E:1 M:2 EM:3 SA:0 V:5 S:100k 1,2,3";
    let buf = container(&[(&TX, l1), (&DC, b"frame"), (&TX, l2), (&TX, b"garbage"), (&TX, l3)], 0);
    let media = ZDR055MediaData::new("REC.avi");
    assert_eq!(media.extract_stream_data(&buf).unwrap().len(), 4);
    let log = process_media_file(&media, &buf).unwrap();
    assert_eq!(log.len(), 2);
    assert_eq!(log.first().unwrap().time, b"2023-05-01 12:00:00".to_vec());
    assert_eq!(log.last().unwrap().time, b"2023-05-01 12:00:02".to_vec());
    assert_eq!(
        process_media_file(&media, b"no index").err(),
        Some(MediaError::Container(ContainerError::IndexNotFound))
    );
}
