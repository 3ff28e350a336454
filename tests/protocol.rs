use kvs::engine::{choose_engine, last_engine, EngineKind};
use kvs::error::MyErr;
use kvs::index::Index;
use kvs::paths::{kvs_path, path_push, segment_id};
use kvs::protocol::{
    decode_get_reply, encode_get, encode_remove, encode_set, fields_needed, get_reply,
    parse_request, reject_reply, remove_reply, removal_succeeded, set_reply, trim_field,
    Rejection, Request, GET_ERR, GET_NIL, GET_VAL, OP_GET, OP_RM, OP_SET,
};

#[test]
fn opcodes_are_the_protocol_bytes() {
    assert_eq!((OP_SET, OP_RM, OP_GET), (b'+', b'-', b'?'));
    assert_eq!((GET_VAL, GET_NIL, GET_ERR), (b'v', b'n', b'e'));
}

#[test]
fn fields_are_trimmed() {
    assert_eq!(trim_field(" \tkey \n"), "key");
    assert_eq!(trim_field("a b\n"), "a b");
    assert_eq!(trim_field("\n\n"), "");
    assert_eq!(trim_field(""), "");
}

#[test]
fn requests_parse() {
    assert_eq!(
        parse_request(OP_SET, "a\n", " 1\n"),
        Ok(Request::Put { key: "a".to_string(), val: "1".to_string() })
    );
    assert_eq!(parse_request(OP_RM, "k\n", ""), Ok(Request::Remove { key: "k".to_string() }));
    assert_eq!(parse_request(OP_GET, "k\n", ""), Ok(Request::Get { key: "k".to_string() }));
    assert_eq!(parse_request(OP_SET, " \n", "1\n"), Err(Rejection::NoKey));
    assert_eq!(parse_request(OP_SET, "a\n", "\n"), Err(Rejection::NoVal));
    assert_eq!(parse_request(OP_GET, "\n", ""), Err(Rejection::NoKey));
    assert_eq!(parse_request(b'x', "a\n", "1\n"), Err(Rejection::BadOp));
    assert_eq!(fields_needed(OP_SET), 2);
    assert_eq!(fields_needed(OP_RM), 1);
    assert_eq!(fields_needed(b'x'), 0);
}

#[test]
fn replies() {
    assert_eq!(set_reply(&Ok(())), "OK\n");
    assert_eq!(set_reply(&Err(MyErr::Io)), "ErrInternal\n");
    assert_eq!(remove_reply(&Ok(())), "OK\n");
    assert_eq!(remove_reply(&Err(MyErr::KeyNotFound)), "Key not found\n");
    assert_eq!(get_reply(&Ok(Some("2".to_string()))), "v2\n");
    assert_eq!(get_reply(&Ok(None)), "n\n");
    assert_eq!(get_reply(&Err(MyErr::CorruptRecord)), "eErrInternal\n");
    assert_eq!(reject_reply(OP_SET, Rejection::NoKey), "ErrNoKey\n");
    assert_eq!(reject_reply(OP_SET, Rejection::NoVal), "ErrNoVal\n");
    assert_eq!(reject_reply(OP_GET, Rejection::NoKey), "eErrNoKey\n");
    assert_eq!(reject_reply(b'x', Rejection::BadOp), "ErrOp\n");
}

#[test]
fn client_encodes_requests() {
    assert_eq!(encode_set("a", "1"), b"+a\n1\n".to_vec());
    assert_eq!(encode_remove("k"), b"-k\n".to_vec());
    assert_eq!(encode_get("k"), b"?k\n".to_vec());
}

#[test]
fn client_reads_replies() {
    assert_eq!(decode_get_reply(GET_VAL, "2\n"), "2\n");
    assert_eq!(decode_get_reply(GET_NIL, "\n"), "Key not found");
    assert_eq!(decode_get_reply(GET_ERR, "ErrNoKey\n"), "Err=ErrNoKey\n");
    assert_eq!(decode_get_reply(b'?', ""), "Err = Protocol error");
    assert!(removal_succeeded("OK\n"));
    assert!(!removal_succeeded("Key not found\n"));
    assert!(!removal_succeeded("err: Key not found!"));
    assert!(removal_succeeded("Key not"));
}

#[test]
fn segment_paths() {
    assert_eq!(kvs_path("/tmp/db", 7), "/tmp/db/000000007.kvs");
    assert_eq!(kvs_path("dir/", 1), "dir/000000001.kvs");
    assert_eq!(kvs_path("", 4294967295), "4294967295.kvs");
    assert_eq!(path_push(".", "compacting"), "./compacting");
    assert_eq!(path_push("", "compacting"), "compacting");
    assert_eq!(path_push("/d", "/x"), "/x");
}

#[test]
fn segment_ids_from_names() {
    assert_eq!(segment_id("000000007.kvs"), Some(7));
    assert_eq!(segment_id("4294967295.kvs"), Some(u32::MAX));
    assert_eq!(segment_id("4294967296.kvs"), None);
    assert_eq!(segment_id(".kvs"), None);
    assert_eq!(segment_id("a1.kvs"), None);
    assert_eq!(segment_id("12.kv"), None);
    assert_eq!(segment_id(&kvs_path("", 42)), Some(42));
}

#[test]
fn engine_detection() {
    let names = |v: &[&str]| v.iter().map(|s| s.to_string()).collect::<Vec<String>>();
    assert_eq!(last_engine(&names(&["notes.txt", "000000002.kvs"])), Some(EngineKind::Kvs));
    assert_eq!(last_engine(&names(&["db", "000000002.kvs"])), Some(EngineKind::Sled));
    assert_eq!(last_engine(&names(&["x.kv", "kvs"])), None);
    assert_eq!(last_engine(&names(&[])), None);
    assert_eq!(last_engine(&names(&[".kvs"])), None);
    assert_eq!(last_engine(&names(&[".kvs", "db"])), Some(EngineKind::Sled));
    assert_eq!(choose_engine(Some(EngineKind::Sled), Some(EngineKind::Kvs)), Err(MyErr::WrongEngine));
    assert_eq!(choose_engine(Some(EngineKind::Sled), None), Ok(EngineKind::Sled));
    assert_eq!(choose_engine(None, Some(EngineKind::Sled)), Ok(EngineKind::Sled));
    assert_eq!(choose_engine(None, None), Ok(EngineKind::Kvs));
}

#[test]
fn index_entry_fields() {
    let ix = Index::new(3, 36, 4);
    assert_eq!((ix.file, ix.len, ix.offset), (3, 36, 4));
}
