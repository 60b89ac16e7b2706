use git_index::decode::{decode, DecodeError, DecodeOptions};
use git_index::encode::{encode, EncodeError, EncodeOptions, Extensions};
use git_index::entry::{Entry, FLAG_EXTENDED};
use git_index::extension::{OpaqueExtension, TreeCache, TreeNode};
use git_index::hash::HashKind;
use git_index::state::State;
use git_index::verify::VerifyError;
use git_index::Version;
use sha1::{Digest, Sha1};

fn opts(x: Extensions) -> EncodeOptions {
    EncodeOptions { hash_kind: HashKind::Sha1, extensions: x }
}

fn dopts() -> DecodeOptions {
    DecodeOptions { hash_kind: HashKind::Sha1, reject_unknown_extensions: false }
}

fn base_entry(marker: u8, flags: u16, extended_flags: u16, hl: usize) -> Entry {
    Entry {
        ctime_secs: 1,
        ctime_nsecs: 2,
        mtime_secs: 3,
        mtime_nsecs: 4,
        dev: 5,
        ino: 6,
        mode: 0o100644,
        uid: 7,
        gid: 8,
        size: 9,
        id: vec![marker; hl],
        flags,
        extended_flags,
        path_offset: 0,
        path_len: 0,
    }
}

fn push(st: &mut State, path: &[u8], marker: u8, flags: u16, extended_flags: u16) {
    let p: Vec<u8> = path.to_vec();
    st.push_entry(&p, base_entry(marker, flags, extended_flags, 20));
}

fn sample_tree() -> TreeCache {
    TreeCache {
        nodes: vec![
            TreeNode { name: Vec::new(), entry_count: Some(3), id: vec![0xaa; 20], child_count: 1 },
            TreeNode { name: b"b".to_vec(), entry_count: None, id: Vec::new(), child_count: 0 },
        ],
    }
}

fn sample_state() -> State {
    let mut st = State::new(Version::V2);
    push(&mut st, b"a.txt", 0x11, 0, 0);
    push(&mut st, b"b/c.txt", 0x22, 0, 0);
    push(&mut st, b"d", 0x33, 0, 0);
    st.tree = Some(sample_tree());
    st.extensions = vec![OpaqueExtension { signature: b"ZZZZ".to_vec(), payload: vec![9, 8, 7] }];
    st
}

fn same_content(a: &State, b: &State) -> bool {
    a.entries == b.entries && a.path_backing == b.path_backing && a.tree == b.tree
}

/// Replaces the trailer with the digest of the (possibly patched) body.
fn reseal(mut bytes: Vec<u8>) -> Vec<u8> {
    let l = bytes.len() - 20;
    let d = Sha1::digest(&bytes[..l]);
    bytes.truncate(l);
    bytes.extend_from_slice(&d);
    bytes
}

#[test]
fn roundtrips() {
    let mut extended = State::new(Version::V2);
    push(&mut extended, b"extended-flags", 0x44, FLAG_EXTENDED, 0x2000);

    let mut conflicting = State::new(Version::V2);
    push(&mut conflicting, b"conflicting-file", 0x51, 0x1000, 0);
    push(&mut conflicting, b"conflicting-file", 0x52, 0x2000, 0);
    push(&mut conflicting, b"conflicting-file", 0x53, 0x3000, 0);

    let mut long = State::new(Version::V2);
    let long_path = vec![b'p'; 4321];
    long.push_entry(&long_path, base_entry(0x61, 0, 0, 20));

    let mut more = State::new(Version::V2);
    push(&mut more, b"very-long-path", 0x71, 0, 0);
    more.tree = Some(sample_tree());

    let cases: Vec<(&str, State, Extensions, Version)> = vec![
        ("V2_empty", State::new(Version::V2), Extensions::All, Version::V2),
        ("v2_more_files", more, Extensions::Given { tree_cache: true, end_of_index_entry: true }, Version::V2),
        ("extended", extended, Extensions::All, Version::V3),
        ("conflicting", conflicting, Extensions::All, Version::V2),
        ("long", long, Extensions::All, Version::V2),
    ];
    for (name, st, x, expected) in cases {
        let (bytes, written) = encode(&st, opts(x)).unwrap();
        assert_eq!(written, expected, "{} didn't write the expected version", name);
        let (back, trailing) = decode(&bytes, dopts()).unwrap();
        assert!(trailing.is_empty());
        assert_eq!(back.entries.len(), st.entries.len(), "{}", name);
        let (bytes2, written2) = encode(&back, opts(x)).unwrap();
        assert_eq!(written, written2, "{}", name);
        assert_eq!(bytes, bytes2, "{} changed across a round trip", name);
    }
}

#[test]
fn extended_flags_automatically_upgrade_the_version_to_avoid_data_loss() {
    let mut st = State::new(Version::V2);
    push(&mut st, b"first", 0x10, 0, 0);
    push(&mut st, b"second", 0x20, FLAG_EXTENDED, 0x2000);
    let (bytes, written) = encode(&st, opts(Extensions::All)).unwrap();
    assert_eq!(written, Version::V3, "extended flags need V3");
    let (back, _) = decode(&bytes, dopts()).unwrap();
    assert_eq!(back.entries[1].flags & FLAG_EXTENDED, FLAG_EXTENDED);
    assert_eq!(back.entries[1].extended_flags, 0x2000);
}

#[test]
fn v2_index_no_extensions() {
    let st = sample_state();
    let (bytes, written) = encode(&st, opts(Extensions::Omit)).unwrap();
    assert_eq!(written, Version::V2);
    let (back, _) = decode(&bytes, dopts()).unwrap();
    assert!(back.tree.is_none());
    assert!(back.extensions.is_empty());
    assert_eq!(back.entries, st.entries);
    assert_eq!(back.path_backing, st.path_backing);
}

#[test]
fn v2_index_tree_extensions() {
    let st = sample_state();
    let x = Extensions::Given { tree_cache: true, end_of_index_entry: false };
    let (bytes, _) = encode(&st, opts(x)).unwrap();
    let (back, _) = decode(&bytes, dopts()).unwrap();
    assert_eq!(back.tree, st.tree);
    assert!(back.extensions.is_empty());
    assert_eq!(back.entries, st.entries);
    let (bytes2, _) = encode(&back, opts(x)).unwrap();
    assert_eq!(bytes, bytes2);
}

#[test]
fn v2_index_eoie_extensions() {
    let st = sample_state();
    let x = Extensions::Given { tree_cache: false, end_of_index_entry: true };
    let (bytes, _) = encode(&st, opts(x)).unwrap();
    // The marker is consumed on decode (it is derived data), entries stay.
    let (back, _) = decode(&bytes, dopts()).unwrap();
    assert!(back.tree.is_none());
    assert!(back.extensions.is_empty());
    assert_eq!(back.entries, st.entries);
}

#[test]
fn eoie_block_is_last_and_records_extension_offset() {
    let st = sample_state();
    let x = Extensions::Given { tree_cache: true, end_of_index_entry: true };
    let (bytes, _) = encode(&st, opts(x)).unwrap();
    // The same state without extensions gives the entry-section end.
    let (plain, _) = encode(&st, opts(Extensions::Omit)).unwrap();
    let entries_end = (plain.len() - 20) as u32;
    // The block sits right before the 20-byte trailer: signature, length
    // (4 + 20), offset, digest of the preceding block headers.
    let start = bytes.len() - 20 - 32;
    assert_eq!(&bytes[start..start + 4], b"EOIE");
    assert_eq!(&bytes[start + 4..start + 8], &24u32.to_be_bytes());
    assert_eq!(&bytes[start + 8..start + 12], &entries_end.to_be_bytes());
    // The tree block begins exactly at the recorded offset.
    assert_eq!(&bytes[entries_end as usize..entries_end as usize + 4], b"TREE");
}

#[test]
fn unknown_extension_survives_roundtrip_byte_for_byte() {
    let mut st = State::new(Version::V2);
    push(&mut st, b"kept", 0x11, 0, 0);
    st.extensions = vec![OpaqueExtension { signature: b"XYZW".to_vec(), payload: vec![1, 2, 3] }];
    let (bytes, _) = encode(&st, opts(Extensions::All)).unwrap();
    let needle: Vec<u8> = vec![b'X', b'Y', b'Z', b'W', 0, 0, 0, 3, 1, 2, 3];
    assert!(bytes.windows(needle.len()).any(|w| w == &needle[..]));
    let (back, _) = decode(&bytes, dopts()).unwrap();
    assert_eq!(back.extensions, st.extensions);
    let (bytes2, _) = encode(&back, opts(Extensions::All)).unwrap();
    assert_eq!(bytes, bytes2);
}

#[test]
fn unknown_extension_rejected_in_strict_mode() {
    let mut st = State::new(Version::V2);
    push(&mut st, b"kept", 0x11, 0, 0);
    st.extensions = vec![OpaqueExtension { signature: b"XYZW".to_vec(), payload: vec![1, 2, 3] }];
    let (bytes, _) = encode(&st, opts(Extensions::All)).unwrap();
    let strict = DecodeOptions { hash_kind: HashKind::Sha1, reject_unknown_extensions: true };
    assert_eq!(decode(&bytes, strict).unwrap_err(), DecodeError::Corrupt);
}

#[test]
fn checksum_mismatch_on_any_body_byte_flip() {
    let mut st = State::new(Version::V2);
    push(&mut st, b"sealed", 0x11, 0, 0);
    let (bytes, _) = encode(&st, opts(Extensions::Omit)).unwrap();
    assert!(decode(&bytes, dopts()).is_ok());
    for i in 0..bytes.len() - 20 {
        let mut broken = bytes.clone();
        broken[i] ^= 0x01;
        assert_eq!(
            decode(&broken, dopts()).unwrap_err(),
            DecodeError::ChecksumMismatch,
            "flip at {}",
            i
        );
    }
}

#[test]
fn ordering_violation_detected_and_rejected() {
    let mut st = State::new(Version::V2);
    push(&mut st, b"later", 0x11, 0, 0);
    push(&mut st, b"earlier", 0x22, 0, 0);
    match st.verify_entries().unwrap_err() {
        VerifyError::OrderingViolation { index, first_path, second_path } => {
            assert_eq!(index, 0);
            assert_eq!(first_path, b"later".to_vec());
            assert_eq!(second_path, b"earlier".to_vec());
        },
        other => panic!("wrong error: {:?}", other),
    }
    assert_eq!(
        encode(&st, opts(Extensions::All)).unwrap_err(),
        EncodeError::OrderingViolation
    );
    // A duplicate (path, stage) pair is a violation as well.
    let mut dup = State::new(Version::V2);
    push(&mut dup, b"same", 0x11, 0, 0);
    push(&mut dup, b"same", 0x22, 0, 0);
    assert!(dup.verify_entries().is_err());
    // Ascending stages on one path are fine.
    let mut staged = State::new(Version::V2);
    push(&mut staged, b"same", 0x11, 0x1000, 0);
    push(&mut staged, b"same", 0x22, 0x2000, 0);
    assert!(staged.verify_entries().is_ok());
}

#[test]
fn tree_cache_counts_are_checked_against_entries() {
    let mut st = State::new(Version::V2);
    push(&mut st, b"only", 0x11, 0, 0);
    st.tree = Some(TreeCache {
        nodes: vec![TreeNode {
            name: Vec::new(),
            entry_count: Some(5),
            id: vec![0xaa; 20],
            child_count: 0,
        }],
    });
    match st.verify_extensions().unwrap_err() {
        VerifyError::TreeCountInvalid { node } => assert_eq!(node, 0),
        other => panic!("wrong error: {:?}", other),
    }
    let ok = sample_state();
    assert!(ok.verify_extensions().is_ok());
}

#[test]
fn truncated_buffer_is_rejected() {
    let short: Vec<u8> = vec![0x44, 0x49, 0x52, 0x43, 0, 0, 0, 2];
    assert_eq!(decode(&short, dopts()).unwrap_err(), DecodeError::Truncated);
    // Valid checksum but fewer bytes than the declared entries need.
    let mut st = State::new(Version::V2);
    push(&mut st, b"x", 0x11, 0, 0);
    let (bytes, _) = encode(&st, opts(Extensions::Omit)).unwrap();
    let mut patched = bytes.clone();
    patched[11] = 9;
    let patched = reseal(patched);
    assert_eq!(decode(&patched, dopts()).unwrap_err(), DecodeError::Truncated);
}

#[test]
fn header_signature_is_checked() {
    let st = State::new(Version::V2);
    let (bytes, _) = encode(&st, opts(Extensions::Omit)).unwrap();
    let mut patched = bytes.clone();
    patched[0] = b'X';
    let patched = reseal(patched);
    assert_eq!(decode(&patched, dopts()).unwrap_err(), DecodeError::HeaderInvalid);
}

#[test]
fn unknown_version_is_rejected() {
    let st = State::new(Version::V2);
    let (bytes, _) = encode(&st, opts(Extensions::Omit)).unwrap();
    let mut patched = bytes.clone();
    patched[7] = 5;
    let patched = reseal(patched);
    assert_eq!(
        decode(&patched, dopts()).unwrap_err(),
        DecodeError::UnsupportedVersion { number: 5 }
    );
}

#[test]
fn extended_bit_in_v2_file_is_corrupt() {
    let mut st = State::new(Version::V3);
    push(&mut st, b"needs-v3", 0x11, FLAG_EXTENDED, 0x2000);
    let (bytes, written) = encode(&st, opts(Extensions::Omit)).unwrap();
    assert_eq!(written, Version::V3);
    let mut patched = bytes.clone();
    patched[7] = 2;
    let patched = reseal(patched);
    assert_eq!(decode(&patched, dopts()).unwrap_err(), DecodeError::Corrupt);
}

#[test]
fn v4_roundtrip_with_prefix_compression() {
    let mut st = State::new(Version::V4);
    push(&mut st, b"dir/alpha", 0x11, 0, 0);
    push(&mut st, b"dir/alpine", 0x22, 0, 0);
    push(&mut st, b"dx", 0x33, 0, 0);
    let (bytes, written) = encode(&st, opts(Extensions::Omit)).unwrap();
    assert_eq!(written, Version::V4);
    let (back, _) = decode(&bytes, dopts()).unwrap();
    assert_eq!(back.version, Version::V4);
    assert!(same_content(&back, &st));
    let (bytes2, _) = encode(&back, opts(Extensions::Omit)).unwrap();
    assert_eq!(bytes, bytes2);
    // The compressed form is smaller than the verbatim layout's entry for
    // the shared prefix, so the paths must really have been stripped.
    assert_eq!(back.path_of(1), b"dir/alpine".to_vec());
}

#[test]
fn sha256_trailer_roundtrip() {
    let mut st = State::new(Version::V2);
    let p: Vec<u8> = b"wide".to_vec();
    st.push_entry(&p, base_entry(0x11, 0, 0, 32));
    let o = EncodeOptions { hash_kind: HashKind::Sha256, extensions: Extensions::Omit };
    let (bytes, _) = encode(&st, o).unwrap();
    let d = DecodeOptions { hash_kind: HashKind::Sha256, reject_unknown_extensions: false };
    let (back, _) = decode(&bytes, d).unwrap();
    assert!(same_content(&back, &st));
    assert_eq!(back.checksum.len(), 32);
    // Decoding under the wrong algorithm must not pass the seal.
    assert!(decode(&bytes, dopts()).is_err());
}

#[test]
fn checksum_is_recorded_on_decode() {
    let st = sample_state();
    let (bytes, _) = encode(&st, opts(Extensions::All)).unwrap();
    let (back, _) = decode(&bytes, dopts()).unwrap();
    assert_eq!(back.checksum[..], bytes[bytes.len() - 20..]);
    let expected = Sha1::digest(&bytes[..bytes.len() - 20]);
    assert_eq!(back.checksum[..], expected[..]);
}

#[test]
fn paths_longer_than_the_flags_field_roundtrip() {
    let mut st = State::new(Version::V2);
    let long_path = vec![b'q'; 0x1001];
    st.push_entry(&long_path, base_entry(0x11, 0, 0, 20));
    let (bytes, _) = encode(&st, opts(Extensions::Omit)).unwrap();
    let (back, _) = decode(&bytes, dopts()).unwrap();
    assert!(same_content(&back, &st));
    assert_eq!(back.entries[0].flags & 0x0fff, 0x0fff);
    assert_eq!(back.path_of(0).len(), 0x1001);
}

#[test]
fn tree_cache_decimal_fields_roundtrip() {
    let mut st = State::new(Version::V2);
    push(&mut st, b"deep/path", 0x11, 0, 0);
    st.tree = Some(TreeCache {
        nodes: vec![
            TreeNode { name: Vec::new(), entry_count: Some(0), id: vec![1; 20], child_count: 2 },
            TreeNode {
                name: b"deep".to_vec(),
                entry_count: Some(1234567),
                id: vec![2; 20],
                child_count: 0,
            },
            TreeNode { name: b"wide".to_vec(), entry_count: None, id: Vec::new(), child_count: 10 },
        ],
    });
    let x = Extensions::Given { tree_cache: true, end_of_index_entry: false };
    let (bytes, _) = encode(&st, opts(x)).unwrap();
    let (back, _) = decode(&bytes, dopts()).unwrap();
    assert_eq!(back.tree, st.tree);
    // The textual fields really are decimal ASCII on disk.
    let needle = b"deep\x001234567 0\n".to_vec();
    assert!(bytes.windows(needle.len()).any(|w| w == &needle[..]));
    let needle2 = b"wide\x00-1 10\n".to_vec();
    assert!(bytes.windows(needle2.len()).any(|w| w == &needle2[..]));
}

#[test]
fn signature_writes_the_actor_line() {
    let sig = git_index::actor::Signature {
        name: b"committer".to_vec(),
        email: b"c@example.com".to_vec(),
        time: git_index::actor::Time { time: 1313584730, offset: 28800 },
    };
    let mut out: Vec<u8> = Vec::new();
    sig.write_to(&mut out).unwrap();
    assert_eq!(out, b"committer <c@example.com> 1313584730 +0800".to_vec());
    let west = git_index::actor::Signature {
        name: b"a".to_vec(),
        email: b"b".to_vec(),
        time: git_index::actor::Time { time: 0, offset: -5400 },
    };
    let mut out2: Vec<u8> = Vec::new();
    west.write_to(&mut out2).unwrap();
    assert_eq!(out2, b"a <b> 0 -0130".to_vec());
}

#[test]
fn signature_with_illegal_characters_is_refused() {
    for bad in [&b"a<b"[..], &b"a>b"[..], &b"a\nb"[..]] {
        let sig = git_index::actor::Signature {
            name: bad.to_vec(),
            email: b"ok@example.com".to_vec(),
            time: git_index::actor::Time { time: 1, offset: 0 },
        };
        let mut out: Vec<u8> = vec![0xEE];
        assert_eq!(sig.write_to(&mut out).unwrap_err(), git_index::actor::Error::IllegalCharacter);
        assert_eq!(out, vec![0xEE], "nothing may be written on refusal");
        let sig2 = git_index::actor::Signature {
            name: b"ok".to_vec(),
            email: bad.to_vec(),
            time: git_index::actor::Time { time: 1, offset: 0 },
        };
        assert!(sig2.write_to(&mut out).is_err());
    }
    assert!(git_index::actor::validated_token(&b"plain.name".to_vec()).is_ok());
}

#[test]
fn signature_from_parts_copies_the_tokens() {
    let name = b"committer".to_vec();
    let email = b"c@example.com".to_vec();
    let time = git_index::actor::Time { time: 42, offset: 0 };
    let sig = git_index::actor::Signature::from_parts(&name, &email, time);
    assert_eq!(sig.name, name);
    assert_eq!(sig.email, email);
    assert_eq!(sig.time, time);
    let mut out: Vec<u8> = Vec::new();
    sig.write_to(&mut out).unwrap();
    assert_eq!(out, b"committer <c@example.com> 42 +0000".to_vec());
}
