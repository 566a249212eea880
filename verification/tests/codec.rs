use stable_map::errors::MapError;
use stable_map::memory::Memory;
use stable_map::memory::MemoryWindow;
use stable_map::memory::VecMemory;
use stable_map::profile::UserProfile;
use stable_map::storable::Storable;

#[test]
fn u64_round_trip() {
    for x in [0u64, 1, 42, 255, 256, 70000, u64::MAX] {
        let bytes = x.to_bytes();
        assert_eq!(bytes.len(), 8);
        assert_eq!(u64::from_bytes(bytes.as_slice()), Ok(x));
    }
}

#[test]
fn u64_rejects_wrong_length() {
    assert_eq!(u64::from_bytes(&[1, 2, 3]), Err(MapError::DecodeError));
    assert_eq!(u64::from_bytes(&[]), Err(MapError::DecodeError));
}

#[test]
fn string_round_trip() {
    for s in ["", "alice", "h\u{e9}llo \u{4e16}\u{754c}"] {
        let owned = s.to_string();
        let bytes = owned.to_bytes();
        assert_eq!(String::from_bytes(bytes.as_slice()), Ok(owned));
    }
}

#[test]
fn string_rejects_invalid_utf8() {
    assert_eq!(
        String::from_bytes(&[0xff, 0xfe]),
        Err(MapError::DecodeError)
    );
}

#[test]
fn blob_round_trip() {
    let blob: Vec<u8> = vec![0, 1, 2, 255];
    assert_eq!(Vec::<u8>::from_bytes(blob.to_bytes().as_slice()), Ok(blob));
}

#[test]
fn profile_round_trip() {
    let p = UserProfile {
        age: 30,
        name: "Ada".to_string(),
    };
    let bytes = p.to_bytes();
    let back = UserProfile::from_bytes(bytes.as_slice()).unwrap();
    assert_eq!(back.age, 30);
    assert_eq!(back.name, "Ada");
}

#[test]
fn profile_skips_unknown_appended_fields() {
    // a writer with a newer schema appends a field with a later tag; this
    // decoder still reads the fields it knows
    let p = UserProfile {
        age: 7,
        name: "N".to_string(),
    };
    let mut bytes = p.to_bytes();
    bytes.push(3); // unknown tag
    bytes.extend_from_slice(&[2, 0, 0, 0, 0, 0, 0, 0]); // payload length 2
    bytes.extend_from_slice(&[0xaa, 0xbb]); // opaque payload
    let back = UserProfile::from_bytes(bytes.as_slice()).unwrap();
    assert_eq!(back.age, 7);
    assert_eq!(back.name, "N");
}

#[test]
fn profile_rejects_malformed_bytes() {
    assert_eq!(
        UserProfile::from_bytes(&[9, 9, 9]),
        Err(MapError::DecodeError)
    );
    assert_eq!(UserProfile::from_bytes(&[]), Err(MapError::DecodeError));
}

#[test]
fn memory_read_write_bounds() {
    let mut mem = VecMemory::new(4);
    assert_eq!(mem.size_pages(), 0);
    assert_eq!(mem.read(0, 1), Err(MapError::OutOfBounds));
    assert_eq!(mem.grow(1), Ok(0));
    assert_eq!(mem.size_pages(), 1);
    assert_eq!(mem.write(10, &vec![1, 2, 3]), Ok(()));
    assert_eq!(mem.read(10, 3), Ok(vec![1, 2, 3]));
    assert_eq!(mem.read(65534, 4), Err(MapError::OutOfBounds));
    assert_eq!(mem.grow(100), Err(MapError::GrowFailed));
    assert_eq!(mem.grow(3), Ok(1));
    assert_eq!(mem.size_pages(), 4);
    // freshly grown pages read as zero
    assert_eq!(mem.read(65536, 2), Ok(vec![0, 0]));
}

#[test]
fn window_translates_and_guards_its_range() {
    let mut base = VecMemory::new(10);
    base.grow(3).unwrap();
    base.write(2 * 65536, &vec![9, 9]).unwrap();
    let mut win = MemoryWindow::new(base, 2, 4);
    // the window sees page 2 of the base as its own page 0
    assert_eq!(win.size_pages(), 1);
    assert_eq!(win.read(0, 2), Ok(vec![9, 9]));
    // an access past the assigned range is a window violation
    assert_eq!(win.read(2 * 65536, 1), Err(MapError::WindowViolation));
    assert_eq!(
        win.write(2 * 65536 - 1, &vec![1, 1]),
        Err(MapError::WindowViolation)
    );
    // an access inside the range but past the current size is out of bounds
    assert_eq!(win.read(65536, 1), Err(MapError::OutOfBounds));
    // the window can grow only up to its own end page
    assert_eq!(win.grow(1), Ok(1));
    assert_eq!(win.read(65536, 1), Ok(vec![0]));
    assert_eq!(win.grow(1), Err(MapError::GrowFailed));
}

#[test]
fn profile_rejects_known_tag_in_trailing_fields() {
    // a duplicate or out-of-order occurrence of a known tag is malformed
    let p = UserProfile {
        age: 1,
        name: "x".to_string(),
    };
    let mut bytes = p.to_bytes();
    bytes.push(2);
    bytes.extend_from_slice(&[1, 0, 0, 0, 0, 0, 0, 0]);
    bytes.push(9);
    assert_eq!(
        UserProfile::from_bytes(bytes.as_slice()),
        Err(MapError::DecodeError)
    );
}

#[test]
fn profile_rejects_truncated_trailing_field() {
    let p = UserProfile {
        age: 1,
        name: "x".to_string(),
    };
    let mut bytes = p.to_bytes();
    bytes.push(3);
    bytes.extend_from_slice(&[5, 0, 0, 0, 0, 0, 0, 0]); // declares 5 payload bytes
    bytes.extend_from_slice(&[0xaa, 0xbb]); // but only 2 follow
    assert_eq!(
        UserProfile::from_bytes(bytes.as_slice()),
        Err(MapError::DecodeError)
    );
}
