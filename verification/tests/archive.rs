use pck_tweaker::patcher::{build_archive, rewrite_archive};
use pck_tweaker::pck::{GodotVersion, Pck, PckEntry, PckError};
use pck_tweaker::store::{EntryStore, RuntimePckEntry};

fn gv(major: u32, minor: u32, patch: u32) -> GodotVersion {
    GodotVersion { major, minor, patch }
}

fn push_u32(out: &mut Vec<u8>, x: u32) {
    out.extend_from_slice(&x.to_le_bytes());
}

fn push_u64(out: &mut Vec<u8>, x: u64) {
    out.extend_from_slice(&x.to_le_bytes());
}

/// Builds archive bytes by hand: header, then a table whose entries point at
/// payload blocks appended afterwards, back to back.
fn make_archive(entries: &[(&[u8], &[u8])]) -> Vec<u8> {
    let mut out = Vec::new();
    out.extend_from_slice(b"GDPC");
    push_u32(&mut out, 1);
    push_u32(&mut out, 3);
    push_u32(&mut out, 5);
    push_u32(&mut out, 1);
    out.extend_from_slice(&[0u8; 64]);
    push_u32(&mut out, entries.len() as u32);
    let table_len: usize = entries.iter().map(|(n, _)| 4 + n.len() + 32).sum();
    let mut payload_pos = out.len() + table_len;
    for (name, content) in entries {
        push_u32(&mut out, name.len() as u32);
        out.extend_from_slice(name);
        push_u64(&mut out, payload_pos as u64);
        push_u64(&mut out, content.len() as u64);
        out.extend_from_slice(&md5_of(content));
        payload_pos += content.len();
    }
    for (_, content) in entries {
        out.extend_from_slice(content);
    }
    out
}

fn md5_of(content: &[u8]) -> [u8; 16] {
    <md5::Md5 as md5::Digest>::digest(content).into()
}

fn store_of(entries: &[(&[u8], &[u8])]) -> EntryStore {
    let mut s = EntryStore::new();
    for (name, content) in entries {
        s.apply_overlay(name.to_vec(), content.to_vec());
    }
    s
}

#[test]
fn empty_store_builds_exact_header() {
    let s = EntryStore::new();
    let out = build_archive(1, gv(1, 2, 3), &s, 0);
    let mut expected = Vec::new();
    expected.extend_from_slice(b"GDPC");
    push_u32(&mut expected, 1);
    push_u32(&mut expected, 1);
    push_u32(&mut expected, 2);
    push_u32(&mut expected, 3);
    expected.extend_from_slice(&[0u8; 64]);
    push_u32(&mut expected, 0);
    assert_eq!(out, expected);
    assert_eq!(out.len(), 88);
}

#[test]
fn decode_rejects_bad_magic() {
    let mut bytes = make_archive(&[]);
    bytes[0] = b'X';
    assert!(matches!(Pck::decode(&bytes), Err(PckError::BadMagic)));
}

#[test]
fn decode_rejects_unsupported_version() {
    let mut bytes = make_archive(&[]);
    bytes[4] = 2;
    assert!(matches!(Pck::decode(&bytes), Err(PckError::UnsupportedVersion)));
}

#[test]
fn decode_rejects_truncated_input() {
    assert!(matches!(Pck::decode(&vec![b'G', b'D']), Err(PckError::Truncated)));
    let bytes = make_archive(&[(b"res://a.txt", b"hello")]);
    let cut = bytes[..100].to_vec();
    assert!(matches!(Pck::decode(&cut), Err(PckError::Truncated)));
}

#[test]
fn decode_reads_header_and_entries() {
    let bytes = make_archive(&[(b"res://a.txt", b"hello"), (b"res://b.txt", b"abc")]);
    let pck = Pck::decode(&bytes).unwrap();
    assert_eq!(pck.version, 1);
    assert_eq!(pck.godot_version.major, 3);
    assert_eq!(pck.godot_version.minor, 5);
    assert_eq!(pck.godot_version.patch, 1);
    assert_eq!(pck.entries.len(), 2);
    assert_eq!(pck.entries[0].name, b"res://a.txt".to_vec());
    assert_eq!(pck.entries[0].size, 5);
    assert_eq!(pck.entries[1].name, b"res://b.txt".to_vec());
    assert_eq!(pck.entries[1].size, 3);
    let e = &pck.entries[0];
    let content = &bytes[e.offset as usize..(e.offset + e.size) as usize];
    assert_eq!(content, b"hello");
}

#[test]
fn decode_name_trims_trailing_nuls() {
    let bytes = make_archive(&[(b"res://a.txt\0\0\0", b"hi")]);
    let pck = Pck::decode(&bytes).unwrap();
    assert_eq!(pck.entries[0].name, b"res://a.txt".to_vec());
}

#[test]
fn decode_name_replaces_invalid_utf8() {
    let bytes = make_archive(&[(&[b'r', b'e', b's', b':', b'/', b'/', 0xFF], b"hi")]);
    let pck = Pck::decode(&bytes).unwrap();
    // the invalid byte becomes the replacement character
    let mut expected = b"res://".to_vec();
    expected.extend_from_slice(&[0xEF, 0xBF, 0xBD]);
    assert_eq!(pck.entries[0].name, expected);
}

#[test]
fn digest_known_value() {
    let entry = RuntimePckEntry { name: b"x".to_vec(), content: b"ab".to_vec() };
    let disk = entry.to_pck_entry();
    let expected: [u8; 16] = [
        0x18, 0x7e, 0xf4, 0x43, 0x61, 0x22, 0xd1, 0xcc, 0x2f, 0x40, 0xdc, 0x2b, 0x92, 0xf0, 0xeb,
        0xa0,
    ];
    assert_eq!(disk.md5, expected);
    assert_eq!(disk.name, b"res://x".to_vec());
    assert_eq!(disk.size, 2);
}

#[test]
fn set_offset_pos_tracks_name_length() {
    let entry = RuntimePckEntry { name: b"a.txt".to_vec(), content: b"12345".to_vec() };
    let mut disk = entry.to_pck_entry();
    disk.set_offset_pos(100);
    // 100 + 4-byte length prefix + "res://a.txt"
    assert_eq!(disk.offset_pos, 100 + 4 + 11);
}

#[test]
fn round_trip_no_overlay() {
    let bytes = make_archive(&[(b"res://a.txt", b"hello"), (b"res://b.txt", b"abc")]);
    let out = rewrite_archive(&bytes, &Vec::new(), 0).unwrap();
    let pck = Pck::decode(&out).unwrap();
    assert_eq!(pck.entries.len(), 2);
    assert_eq!(pck.entries[0].name, b"res://a.txt".to_vec());
    assert_eq!(pck.entries[0].size, 5);
    assert_eq!(pck.entries[0].md5, md5_of(b"hello"));
    assert_eq!(pck.entries[1].name, b"res://b.txt".to_vec());
    assert_eq!(pck.entries[1].size, 3);
    assert_eq!(pck.entries[1].md5, md5_of(b"abc"));
    for (e, want) in pck.entries.iter().zip([b"hello" as &[u8], b"abc"]) {
        let got = &out[e.offset as usize..(e.offset + e.size) as usize];
        assert_eq!(got, want);
    }
}

#[test]
fn override_preserves_position() {
    let bytes = make_archive(&[
        (b"res://a.txt", b"aaa"),
        (b"res://b.txt", b"bbb"),
        (b"res://c.txt", b"ccc"),
    ]);
    let overlays = vec![RuntimePckEntry { name: b"b.txt".to_vec(), content: b"NEW!".to_vec() }];
    let out = rewrite_archive(&bytes, &overlays, 0).unwrap();
    let pck = Pck::decode(&out).unwrap();
    assert_eq!(pck.entries.len(), 3);
    assert_eq!(pck.entries[0].name, b"res://a.txt".to_vec());
    assert_eq!(pck.entries[1].name, b"res://b.txt".to_vec());
    assert_eq!(pck.entries[2].name, b"res://c.txt".to_vec());
    assert_eq!(pck.entries[1].size, 4);
    assert_eq!(pck.entries[1].md5, md5_of(b"NEW!"));
    // A and C untouched
    assert_eq!(pck.entries[0].md5, md5_of(b"aaa"));
    assert_eq!(pck.entries[2].md5, md5_of(b"ccc"));
    let e = &pck.entries[1];
    assert_eq!(&out[e.offset as usize..(e.offset + e.size) as usize], b"NEW!");
}

#[test]
fn addition_appends_in_overlay_order() {
    let bytes = make_archive(&[(b"res://a.txt", b"aaa"), (b"res://b.txt", b"bbb")]);
    let overlays = vec![
        RuntimePckEntry { name: b"d.txt".to_vec(), content: b"ddd".to_vec() },
        RuntimePckEntry { name: b"e.txt".to_vec(), content: b"eee".to_vec() },
    ];
    let out = rewrite_archive(&bytes, &overlays, 0).unwrap();
    let pck = Pck::decode(&out).unwrap();
    let names: Vec<Vec<u8>> = pck.entries.iter().map(|e| e.name.clone()).collect();
    assert_eq!(
        names,
        vec![
            b"res://a.txt".to_vec(),
            b"res://b.txt".to_vec(),
            b"res://d.txt".to_vec(),
            b"res://e.txt".to_vec(),
        ]
    );
}

#[test]
fn alignment_positions_are_multiples() {
    let s = store_of(&[(b"a.txt", b"hello"), (b"b.txt", b"abc"), (b"c", b"")]);
    let out = build_archive(1, gv(3, 5, 1), &s, 16);
    let pck = Pck::decode(&out).unwrap();
    for e in &pck.entries {
        assert_eq!(e.offset % 16, 0);
    }
    // the payload region itself starts aligned: first offset is the aligned
    // table end
    let table_end = 88 + (4 + 11 + 32) + (4 + 11 + 32) + (4 + 7 + 32);
    let aligned = (table_end + 15) / 16 * 16;
    assert_eq!(pck.entries[0].offset, aligned as u64);
}

#[test]
fn alignment_zero_inserts_no_padding() {
    let s = store_of(&[(b"a.txt", b"hello"), (b"b.txt", b"abc")]);
    let out = build_archive(1, gv(3, 5, 1), &s, 0);
    let table_len = (4 + 11 + 32) + (4 + 11 + 32);
    assert_eq!(out.len(), 88 + table_len + 5 + 3);
    let pck = Pck::decode(&out).unwrap();
    // payload begins immediately after the table
    assert_eq!(pck.entries[0].offset as usize, 88 + table_len);
}

#[test]
fn idempotence_same_overlays_same_alignment() {
    let bytes = make_archive(&[(b"res://a.txt", b"hello"), (b"res://b.txt", b"abc")]);
    let overlays = vec![
        RuntimePckEntry { name: b"a.txt".to_vec(), content: b"XY".to_vec() },
        RuntimePckEntry { name: b"c.txt".to_vec(), content: b"Z".to_vec() },
    ];
    let once = rewrite_archive(&bytes, &overlays, 4).unwrap();
    let twice = rewrite_archive(&once, &overlays, 4).unwrap();
    assert_eq!(once, twice);
}

#[test]
fn concrete_scenario() {
    let bytes = make_archive(&[(b"res://a.txt", b"12345"), (b"res://b.txt", b"678")]);
    let overlays = vec![
        RuntimePckEntry { name: b"a.txt".to_vec(), content: b"XY".to_vec() },
        RuntimePckEntry { name: b"c.txt".to_vec(), content: b"Z".to_vec() },
    ];
    let out = rewrite_archive(&bytes, &overlays, 4).unwrap();
    let pck = Pck::decode(&out).unwrap();
    assert_eq!(pck.entries.len(), 3);
    assert_eq!(pck.entries[0].name, b"res://a.txt".to_vec());
    assert_eq!(pck.entries[0].size, 2);
    assert_eq!(pck.entries[0].md5, md5_of(b"XY"));
    assert_eq!(pck.entries[1].name, b"res://b.txt".to_vec());
    assert_eq!(pck.entries[1].size, 3);
    assert_eq!(pck.entries[1].md5, md5_of(b"678"));
    assert_eq!(pck.entries[2].name, b"res://c.txt".to_vec());
    assert_eq!(pck.entries[2].size, 1);
    assert_eq!(pck.entries[2].md5, md5_of(b"Z"));
    for e in &pck.entries {
        assert_eq!(e.offset % 4, 0);
    }
    assert_eq!(&out[pck.entries[1].offset as usize..][..3], b"678");
}

#[test]
fn rewrite_rejects_out_of_range_payload() {
    let mut bytes = make_archive(&[(b"res://a.txt", b"hello")]);
    // inflate the stored size so the payload reaches past the buffer's end
    let size_pos = 88 + 4 + 11 + 8;
    bytes[size_pos..size_pos + 8].copy_from_slice(&(10_000u64).to_le_bytes());
    assert!(matches!(
        rewrite_archive(&bytes, &Vec::new(), 0),
        Err(PckError::Truncated)
    ));
}

#[test]
fn rewrite_rejects_name_shorter_than_prefix() {
    let bytes = make_archive(&[(b"ab", b"hello")]);
    // the entry decodes, but its name cannot carry the virtual-path prefix
    assert!(Pck::decode(&bytes).is_ok());
    assert!(matches!(
        rewrite_archive(&bytes, &Vec::new(), 0),
        Err(PckError::Truncated)
    ));
}

#[test]
fn rewrite_empty_archive_keeps_header() {
    let bytes = make_archive(&[]);
    let out = rewrite_archive(&bytes, &Vec::new(), 8).unwrap();
    assert_eq!(out, bytes);
}

#[test]
fn rewrite_reports_decode_errors() {
    let mut bytes = make_archive(&[(b"res://a.txt", b"hello")]);
    bytes[0] = b'Q';
    assert!(matches!(rewrite_archive(&bytes, &Vec::new(), 0), Err(PckError::BadMagic)));
}

#[test]
fn store_len_and_get_follow_overlays() {
    let mut s = EntryStore::new();
    assert_eq!(s.len(), 0);
    s.apply_overlay(b"k1".to_vec(), b"v1".to_vec());
    s.apply_overlay(b"k2".to_vec(), b"v2".to_vec());
    s.apply_overlay(b"k1".to_vec(), b"v3".to_vec());
    assert_eq!(s.len(), 2);
    assert_eq!(s.get(0).name, b"k1".to_vec());
    assert_eq!(s.get(0).content, b"v3".to_vec());
    assert_eq!(s.get(1).name, b"k2".to_vec());
    assert_eq!(s.get(1).content, b"v2".to_vec());
}
