use duiker::models::NewCommand;
use duiker::parse::parse_history_line;
use duiker::types::Error;

#[test]
fn parse_accepts_prefix_timestamp_command() {
    let r = parse_history_line("2 1636577632 some command").unwrap();
    assert_eq!(NewCommand { timestamp: 1636577632, command: "some command".to_string() }, r);
}

#[test]
fn parse_accepts_timestamp_command() {
    let r = parse_history_line("1636577632 some command").unwrap();
    assert_eq!(NewCommand { timestamp: 1636577632, command: "some command".to_string() }, r);
}

#[test]
fn parse_ignores_surrounding_whitespace() {
    let spaced = parse_history_line("  1636577632   some command  ").unwrap();
    let plain = parse_history_line("1636577632 some command").unwrap();
    assert_eq!(plain, spaced);
    assert_eq!(1636577632, spaced.timestamp);
    assert_eq!("some command", spaced.command);
}

#[test]
fn parse_rejects_blank_line_as_empty() {
    match parse_history_line("   \t ") {
        Err(Error::EmptyLine) => {}
        other => panic!("unexpected outcome {:?}", other),
    }
}

#[test]
fn parse_accepts_command_only_line() {
    let r = parse_history_line("invalide input command").unwrap();
    assert_eq!(0, r.timestamp);
    assert_eq!("invalide input command", r.command);

    let r = parse_history_line("  some command").unwrap();
    assert_eq!(0, r.timestamp);
    assert_eq!("some command", r.command);
}

#[test]
fn parse_takes_unterminated_number_as_command_text() {
    let r = parse_history_line("12x").unwrap();
    assert_eq!(0, r.timestamp);
    assert_eq!("12x", r.command);
}

#[test]
fn parse_rejects_line_with_no_command_remainder() {
    assert!(matches!(parse_history_line("1636577632"), Err(Error::InvalidHistoryLine(_))));
    assert!(matches!(parse_history_line("1636577632   "), Err(Error::InvalidHistoryLine(_))));
    assert!(matches!(parse_history_line("5 1636577632"), Err(Error::InvalidHistoryLine(_))));
    assert!(matches!(parse_history_line("5 1636577632  "), Err(Error::InvalidHistoryLine(_))));
}

#[test]
fn parse_takes_single_number_as_timestamp() {
    let r = parse_history_line("5 foo").unwrap();
    assert_eq!(5, r.timestamp);
    assert_eq!("foo", r.command);
}

#[test]
fn parse_keeps_half_numeric_word_in_command() {
    let r = parse_history_line("1 2x").unwrap();
    assert_eq!(1, r.timestamp);
    assert_eq!("2x", r.command);
}

#[test]
fn parse_consumes_at_most_two_numbers() {
    let r = parse_history_line("1 2 3 cmd").unwrap();
    assert_eq!(2, r.timestamp);
    assert_eq!("3 cmd", r.command);
}

#[test]
fn parse_timestamp_at_upper_bound() {
    let r = parse_history_line("2147483647 x").unwrap();
    assert_eq!(2147483647, r.timestamp);
}

#[test]
fn parse_rejects_timestamp_overflow() {
    assert!(matches!(parse_history_line("2147483648 x"), Err(Error::InvalidHistoryLine(_))));
    assert!(matches!(
        parse_history_line("99999999999999999999 x"),
        Err(Error::InvalidHistoryLine(_))
    ));
}

#[test]
fn parse_accepts_tab_separators() {
    let r = parse_history_line("7\t1636577632\tls -la").unwrap();
    assert_eq!(1636577632, r.timestamp);
    assert_eq!("ls -la", r.command);
}

#[test]
fn parse_keeps_non_ascii_command_text() {
    let r = parse_history_line("1636577632 echo héllo wörld").unwrap();
    assert_eq!("echo héllo wörld", r.command);
}

#[test]
fn parse_accepts_leading_zeros() {
    let r = parse_history_line("0000000001636577632 ls").unwrap();
    assert_eq!(1636577632, r.timestamp);
    assert_eq!("ls", r.command);
}
