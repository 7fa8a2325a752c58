use duiker::encode::encode_record;
use duiker::parse::parse_history_line;
use duiker::store::RecordStore;

#[test]
fn encoded_record_parses_back() {
    let line = encode_record(2, 1636577632, "some command");
    assert_eq!("2 1636577632 some command", line);
    let r = parse_history_line(&line).unwrap();
    assert_eq!(1636577632, r.timestamp);
    assert_eq!("some command", r.command);
}

#[test]
fn encoding_survives_numeric_command_text() {
    let line = encode_record(1, 2, "3 cmd");
    let r = parse_history_line(&line).unwrap();
    assert_eq!(2, r.timestamp);
    assert_eq!("3 cmd", r.command);

    let line = encode_record(1, 2, "3");
    let r = parse_history_line(&line).unwrap();
    assert_eq!(2, r.timestamp);
    assert_eq!("3", r.command);
}

#[test]
fn store_round_trips_through_encoding() {
    let mut store = RecordStore::new();
    let input = vec![
        "10 make test".to_string(),
        "20 1 2".to_string(),
        "plain command".to_string(),
    ];
    store.import(&input).unwrap();

    let encoded: Vec<String> = store
        .log()
        .unwrap()
        .iter()
        .map(|r| encode_record(r.id, r.timestamp, &r.command))
        .collect();
    let mut reloaded = RecordStore::new();
    reloaded.import(&encoded).unwrap();

    let before = store.log().unwrap();
    let after = reloaded.log().unwrap();
    assert_eq!(before.len(), after.len());
    for (x, y) in before.iter().zip(after.iter()) {
        assert_eq!(x.timestamp, y.timestamp);
        assert_eq!(x.command, y.command);
    }
}
