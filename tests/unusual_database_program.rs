use protohackers::unusual_database_program::{parse_message, Message, Store};

#[test]
fn parses_inserts_and_retrievals() {
    assert_eq!(parse_message(b"foo=bar"), Message::Insert("foo".to_string(), "bar".to_string()));
    assert_eq!(parse_message(b"foo=bar=baz"), Message::Insert("foo".to_string(), "bar=baz".to_string()));
    assert_eq!(parse_message(b"foo="), Message::Insert("foo".to_string(), String::new()));
    assert_eq!(parse_message(b"=foo"), Message::Insert(String::new(), "foo".to_string()));
    assert_eq!(parse_message(b"foo"), Message::Retrieve("foo".to_string()));
    assert_eq!(parse_message(b""), Message::Retrieve(String::new()));
    assert_eq!(parse_message(&[0x66, 0xff]), Message::Retrieve("f\u{fffd}".to_string()));
}

#[test]
fn store_sets_and_answers() {
    let mut store = Store::new();
    assert_eq!(store.apply(Message::Retrieve("version".to_string())), Some("version=luckywatcher's key-value store 1.0".to_string()));
    assert_eq!(store.apply(Message::Insert("version".to_string(), "x".to_string())), None);
    assert_eq!(store.apply(Message::Retrieve("version".to_string())), Some("version=luckywatcher's key-value store 1.0".to_string()));
    assert_eq!(store.apply(Message::Retrieve("k".to_string())), Some("k=".to_string()));
    store.apply(Message::Insert("k".to_string(), "1".to_string()));
    store.apply(Message::Insert("k".to_string(), "2".to_string()));
    assert_eq!(store.apply(Message::Retrieve("k".to_string())), Some("k=2".to_string()));
    assert_eq!(store.get(&"k".to_string()), Some("2".to_string()));
}
