use duiker::store::RecordStore;
use duiker::types::Error;

#[test]
fn it_should_handle_bash_import() {
    let mut store = RecordStore::new();
    let input = vec!["2 1636577632 some command".to_string()];
    let res = store.import(&input);

    assert!(res.is_ok());
    assert_eq!(1, res.unwrap());
}

#[test]
fn it_should_handle_fish_import() {
    let mut store = RecordStore::new();
    let input = vec!["1636577632 some command".to_string()];
    let res = store.import(&input);

    assert!(res.is_ok());
    assert_eq!(1, res.unwrap());
}

#[test]
fn it_should_handle_an_empty_line() {
    let mut store = RecordStore::new();
    let input = vec!["  ".to_string()];
    let res = store.import(&input);

    assert!(res.is_ok());
    assert_eq!(0, res.unwrap());
}

#[test]
fn it_should_handle_bad_import() {
    let mut store = RecordStore::new();
    let input = vec!["5 1636577632".to_string()];
    let res = store.import(&input);

    assert!(res.is_err());
}

#[test]
fn import_accepts_command_only_lines() {
    let mut store = RecordStore::new();
    let input = vec!["invalide input command".to_string()];
    let res = store.import(&input);

    assert!(res.is_ok());
    assert_eq!(1, res.unwrap());
    let rows = store.log().unwrap();
    assert_eq!(0, rows[0].timestamp);
    assert_eq!("invalide input command", rows[0].command);
}

#[test]
fn import_skips_only_blank_lines() {
    let mut store = RecordStore::new();
    let input = vec!["".to_string(), "   ".to_string(), "\t \t".to_string()];
    let res = store.import(&input);

    assert!(res.is_ok());
    assert_eq!(0, res.unwrap());
    assert_eq!(0, store.log().unwrap().len());
}

#[test]
fn import_aborts_on_first_bad_line() {
    let mut store = RecordStore::new();
    let input = vec![
        "5 1636577632 good cmd".to_string(),
        "5 1636577632".to_string(),
        "6 1636577633 never reached".to_string(),
    ];
    let res = store.import(&input);

    assert!(res.is_err());
    match res.unwrap_err() {
        Error::InvalidHistoryLine(t) => assert_eq!("5 1636577632", t),
        other => panic!("unexpected error {:?}", other),
    }
    let rows = store.log().unwrap();
    assert_eq!(1, rows.len());
    assert_eq!("good cmd", rows[0].command);
}

#[test]
fn error_variants_describe_themselves() {
    let mut store = RecordStore::new();
    let bad = store.import(&vec!["123".to_string()]).unwrap_err();
    assert_eq!("invalid history line", bad.message());
    assert!(matches!(bad, Error::InvalidHistoryLine(_)));

    assert_eq!("empty line", Error::EmptyLine.message());
    assert_eq!("disk gone", Error::Database("disk gone".to_string()).message());
    assert_eq!("pipe closed", Error::IO("pipe closed".to_string()).message());
}

#[test]
fn import_records_are_durable_and_counted() {
    let mut store = RecordStore::new();
    let first = vec!["10 alpha".to_string(), "".to_string(), "20 beta".to_string()];
    assert_eq!(2, store.import(&first).unwrap());
    let second = vec!["30 gamma".to_string()];
    assert_eq!(1, store.import(&second).unwrap());

    let rows = store.log().unwrap();
    assert_eq!(3, rows.len());
    assert_eq!(1, rows[0].id);
    assert_eq!(2, rows[1].id);
    assert_eq!(3, rows[2].id);
    assert_eq!("alpha", rows[0].command);
    assert_eq!("beta", rows[1].command);
    assert_eq!("gamma", rows[2].command);
}
