use pwdchk::account::Account;
use pwdchk::error::Error;
use pwdchk::hibp::check_accounts;

#[test]
fn malformed_count_is_a_protocol_error() {
    // a well-sized suffix field, but the count is not a number
    let accounts = vec![Account::from_line("neo:password").unwrap()];
    let body = format!("{}:notanumber\n", "0".repeat(35));
    let responses = vec![("5BAA6".to_string(), body)];
    match check_accounts(&accounts, &responses) {
        Err(Error::CorpusProtocolError) => {}
        _ => panic!("expected CorpusProtocolError"),
    }
}

#[test]
fn short_line_is_a_protocol_error() {
    let accounts = vec![Account::from_line("neo:password").unwrap()];
    let responses = vec![("5BAA6".to_string(), "ABC:notanumber\n".to_string())];
    match check_accounts(&accounts, &responses) {
        Err(Error::CorpusProtocolError) => {}
        _ => panic!("expected CorpusProtocolError"),
    }
}

#[test]
fn count_at_the_u64_limit_is_accepted() {
    let accounts = vec![Account::from_line("neo:password").unwrap()];
    let body = format!(
        "1E4C9B93F3F0682250B6CF8331B7EE68FD8:{}\n",
        u64::MAX
    );
    let responses = vec![("5BAA6".to_string(), body)];
    let out = check_accounts(&accounts, &responses).unwrap();
    assert_eq!(out, vec![(0, u64::MAX)]);
}

#[test]
fn count_past_the_u64_limit_is_a_protocol_error() {
    let accounts = vec![Account::from_line("neo:password").unwrap()];
    let body = "1E4C9B93F3F0682250B6CF8331B7EE68FD8:18446744073709551616\n".to_string();
    let responses = vec![("5BAA6".to_string(), body)];
    match check_accounts(&accounts, &responses) {
        Err(Error::CorpusProtocolError) => {}
        _ => panic!("expected CorpusProtocolError"),
    }
}

#[test]
fn empty_body_means_no_matches() {
    let accounts = vec![Account::from_line("neo:password").unwrap()];
    let responses = vec![("5BAA6".to_string(), String::new())];
    let out = check_accounts(&accounts, &responses).unwrap();
    assert_eq!(out, vec![(0, 0)]);
}

#[test]
fn carriage_returns_are_stripped() {
    let accounts = vec![Account::from_line("neo:password").unwrap()];
    let body = "1E4C9B93F3F0682250B6CF8331B7EE68FD8:9\r\n".to_string();
    let responses = vec![("5BAA6".to_string(), body)];
    let out = check_accounts(&accounts, &responses).unwrap();
    assert_eq!(out, vec![(0, 9)]);
}

#[test]
fn later_duplicate_suffix_wins() {
    let accounts = vec![Account::from_line("neo:password").unwrap()];
    let body = "1E4C9B93F3F0682250B6CF8331B7EE68FD8:1\n1E4C9B93F3F0682250B6CF8331B7EE68FD8:4\n"
        .to_string();
    let responses = vec![("5BAA6".to_string(), body)];
    let out = check_accounts(&accounts, &responses).unwrap();
    assert_eq!(out, vec![(0, 4)]);
}
