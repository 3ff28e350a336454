use kvs::codec::{decode_len, encode_entry, encode_len, frame_entry, scan_frames, Entry, Frame};
use kvs::error::MyErr;

#[test]
fn length_prefix_is_big_endian() {
    assert_eq!(encode_len(0x01020304), vec![1, 2, 3, 4]);
    assert_eq!(encode_len(36), vec![0, 0, 0, 36]);
    assert_eq!(encode_len(u32::MAX), vec![255, 255, 255, 255]);
    let b = [9u8, 0x01, 0x02, 0x03, 0x04];
    assert_eq!(decode_len(&b, 1), 0x01020304);
    assert_eq!(decode_len(&encode_len(123456789), 0), 123456789);
}

#[test]
fn put_record_bytes() {
    let bytes = encode_entry(&Entry::put("a".to_string(), "1".to_string())).unwrap();
    let json = br#"{"key":"a","val":"1","is_del":false}"#;
    assert_eq!(&bytes[..4], &[0, 0, 0, 36]);
    assert_eq!(&bytes[4..], &json[..]);
}

#[test]
fn delete_record_bytes() {
    let bytes = encode_entry(&Entry::del("k".to_string())).unwrap();
    let json = br#"{"key":"k","val":"","is_del":true}"#;
    assert_eq!(&bytes[..4], &[0, 0, 0, 34]);
    assert_eq!(&bytes[4..], &json[..]);
}

#[test]
fn strings_are_escaped() {
    let bytes = encode_entry(&Entry::put("q\"x".to_string(), "line\nend".to_string())).unwrap();
    let json = br#"{"key":"q\"x","val":"line\nend","is_del":false}"#;
    assert_eq!(&bytes[4..], &json[..]);
    let v: serde_json::Value = serde_json::from_slice(&bytes[4..]).unwrap();
    assert_eq!(v["key"].as_str().unwrap(), "q\"x");
    assert_eq!(v["val"].as_str().unwrap(), "line\nend");
}

#[test]
fn frame_from_literals() {
    let r = frame_entry(b"\"k\"", b"\"v\"", false).unwrap();
    let json = br#"{"key":"k","val":"v","is_del":false}"#;
    assert_eq!(&r[..4], &[0, 0, 0, json.len() as u8]);
    assert_eq!(&r[4..], &json[..]);
}

#[test]
fn scan_finds_each_record() {
    let mut log = encode_entry(&Entry::put("a".to_string(), "1".to_string())).unwrap();
    log.extend(encode_entry(&Entry::del("a".to_string())).unwrap());
    assert_eq!(
        scan_frames(&log),
        vec![Frame { offset: 4, len: 36 }, Frame { offset: 44, len: 34 }]
    );
}

#[test]
fn scan_drops_truncated_tail() {
    let mut log = encode_entry(&Entry::put("a".to_string(), "1".to_string())).unwrap();
    let second = encode_entry(&Entry::put("b".to_string(), "2".to_string())).unwrap();
    log.extend_from_slice(&second[..10]);
    assert_eq!(scan_frames(&log), vec![Frame { offset: 4, len: 36 }]);
    assert_eq!(scan_frames(&[0, 0]), vec![]);
    assert_eq!(scan_frames(&[]), vec![]);
}

#[test]
fn entry_constructors() {
    let p = Entry::put("k".to_string(), "v".to_string());
    assert_eq!((p.key.as_str(), p.val.as_str(), p.is_del), ("k", "v", false));
    let d = Entry::del("k".to_string());
    assert_eq!((d.key.as_str(), d.val.as_str(), d.is_del), ("k", "", true));
}

#[test]
fn error_messages() {
    assert_eq!(MyErr::KeyNotFound.message(), "Key not found");
    assert_eq!(MyErr::WrongEngine.message(), "Wrong engine detected");
    assert_eq!(MyErr::ErrExtension.message(), "Unexpected file extension");
}
