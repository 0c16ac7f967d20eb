use kvs::codec::Log;
use kvs::error::KvsError;

#[test]
fn encode_set_record() {
    let l = Log::Put("k".to_string(), "v".to_string());
    assert_eq!(l.encode(), br#"{"Set":["k","v"]}"#.to_vec());
}

#[test]
fn encode_rm_record() {
    let l = Log::Rm("key".to_string());
    assert_eq!(l.encode(), br#"{"Rm":"key"}"#.to_vec());
}

#[test]
fn encode_escapes_quotes_and_backslashes() {
    let l = Log::Put("a\"b".to_string(), "c\\d\n".to_string());
    assert_eq!(l.encode(), br#"{"Set":["a\"b","c\\d\n"]}"#.to_vec());
    assert_eq!(Log::decode(&l.encode()).unwrap(), l);
}

#[test]
fn decode_round_trip_unicode() {
    let l = Log::Put("clé".to_string(), "värde ✓".to_string());
    assert_eq!(Log::decode(&l.encode()).unwrap(), l);
    let r = Log::Rm("ключ".to_string());
    assert_eq!(Log::decode(&r.encode()).unwrap(), r);
}

#[test]
fn decode_at_walks_a_stream() {
    let mut b = Log::Put("a".to_string(), "1".to_string()).encode();
    let first = b.len();
    b.extend(Log::Rm("a".to_string()).encode());
    let (l1, e1) = Log::decode_at(&b, 0).unwrap();
    assert_eq!(l1, Log::Put("a".to_string(), "1".to_string()));
    assert_eq!(e1, first);
    let (l2, e2) = Log::decode_at(&b, e1).unwrap();
    assert_eq!(l2, Log::Rm("a".to_string()));
    assert_eq!(e2, b.len());
    assert!(Log::decode_at(&b, e2).is_none());
}

#[test]
fn decode_rejects_broken_records() {
    assert!(matches!(Log::decode(br#"{"Set":["a"]}"#), Err(KvsError::Inner(_))));
    assert!(matches!(Log::decode(br#"{"Rm":"a""#), Err(KvsError::Inner(_))));
    assert!(matches!(Log::decode(br#"{"Xx":"a"}"#), Err(KvsError::Inner(_))));
    assert!(matches!(Log::decode(b""), Err(KvsError::Inner(_))));
    assert!(matches!(
        Log::decode(br#"{"Rm":"a"}{"Rm":"b"}"#),
        Err(KvsError::Inner(_))
    ));
}

#[test]
fn decode_reads_json_escapes() {
    assert_eq!(
        Log::decode(br#"{"Rm":"\u0041\n"}"#).unwrap(),
        Log::Rm("A\n".to_string())
    );
}

#[test]
fn record_key() {
    assert_eq!(Log::Rm("z".to_string()).key(), "z");
    assert_eq!(Log::Put("y".to_string(), "1".to_string()).key(), "y");
}

#[test]
fn encode_escapes_control_bytes() {
    let l = Log::Rm("a\u{1}\u{1f}\t\u{8}\u{c}\r\u{7f}".to_string());
    assert_eq!(l.encode(), b"{\"Rm\":\"a\\u0001\\u001f\\t\\b\\f\\r\x7f\"}".to_vec());
    assert_eq!(Log::decode(&l.encode()).unwrap(), l);
}

#[test]
fn set_record_length() {
    assert_eq!(Log::Put("k".to_string(), "v".to_string()).encode().len(), 17);
}
