use pwdchk::account::{group, Account};
use pwdchk::error::Error;
use pwdchk::hibp::{check_accounts, corpus_url, fingerprint, sha1_by_prefix};

fn account(line: &str) -> Account {
    Account::from_line(line).unwrap()
}

#[test]
fn fingerprint_reference_digest() {
    let fp = fingerprint("password");
    assert_eq!(fp.disclosure_prefix.as_str(), "5BAA6");
    assert_eq!(
        fp.withheld_suffix.as_str(),
        "1E4C9B93F3F0682250B6CF8331B7EE68FD8"
    );
    let full = format!("{}{}", fp.disclosure_prefix, fp.withheld_suffix);
    assert_eq!(full.as_str(), "5BAA61E4C9B93F3F0682250B6CF8331B7EE68FD8");
    assert_eq!(full.len(), 40);
}

#[test]
fn fingerprint_deterministic() {
    let a = fingerprint("hunter2");
    let b = fingerprint("hunter2");
    assert_eq!(a.disclosure_prefix, b.disclosure_prefix);
    assert_eq!(a.withheld_suffix, b.withheld_suffix);
    assert_eq!(a.disclosure_prefix.len(), 5);
    assert_eq!(a.withheld_suffix.len(), 35);
}

#[test]
fn from_line_splits_at_first_colon() {
    let a = account("user:pass:word");
    assert_eq!(a.login(), "user");
    assert_eq!(a.password(), "pass:word");
    let b = account(":empty_login");
    assert_eq!(b.login(), "");
    assert_eq!(b.password(), "empty_login");
}

#[test]
fn from_line_without_colon_is_rejected() {
    match Account::from_line("nocolonhere") {
        Err(Error::MissingDelimiter) => {}
        _ => panic!("expected MissingDelimiter"),
    }
}

#[test]
fn group_reports_only_reused_passwords() {
    let accounts = vec![
        account("alice:hunter2"),
        account("bob:hunter2"),
        account("carol:other"),
    ];
    let groups = group(&accounts);
    assert_eq!(groups.len(), 1);
    assert_eq!(groups[0].0.as_str(), "hunter2");
    assert_eq!(groups[0].1, vec!["alice".to_string(), "bob".to_string()]);
    assert!(groups.iter().all(|g| g.0 != "other"));
}

#[test]
fn group_of_distinct_passwords_is_empty() {
    let accounts = vec![account("a:one"), account("b:two")];
    assert!(group(&accounts).is_empty());
}

#[test]
fn group_keeps_login_order() {
    let accounts = vec![
        account("c3:pw"),
        account("a1:pw"),
        account("b2:pw"),
    ];
    let groups = group(&accounts);
    assert_eq!(groups.len(), 1);
    assert_eq!(
        groups[0].1,
        vec!["c3".to_string(), "a1".to_string(), "b2".to_string()]
    );
}

#[test]
fn partition_covers_every_account_once() {
    let accounts = vec![
        account("alice:hunter2"),
        account("bob:hunter2"),
        account("carol:other"),
    ];
    let groups = sha1_by_prefix(&accounts);
    let mut seen = vec![false; accounts.len()];
    for (prefix, members) in &groups {
        assert_eq!(prefix.len(), 5);
        assert!(!members.is_empty());
        for (suffix, idx) in members {
            assert_eq!(suffix.len(), 35);
            assert!(!seen[*idx], "account listed twice");
            seen[*idx] = true;
            let fp = fingerprint(accounts[*idx].password());
            assert_eq!(prefix, &fp.disclosure_prefix);
            assert_eq!(suffix, &fp.withheld_suffix);
        }
    }
    assert!(seen.iter().all(|s| *s));
}

#[test]
fn partition_shares_one_group_per_prefix() {
    let accounts = vec![account("alice:hunter2"), account("bob:hunter2")];
    let groups = sha1_by_prefix(&accounts);
    assert_eq!(groups.len(), 1);
    assert_eq!(groups[0].1.len(), 2);
}

#[test]
fn corpus_url_discloses_only_the_prefix() {
    let url = corpus_url("5BAA6");
    assert_eq!(
        url.as_str(),
        "https://api.pwnedpasswords.com/range/5BAA6"
    );
}

#[test]
fn check_accounts_matches_counts_and_ranks() {
    let accounts = vec![account("neo:password"), account("sam:password")];
    let body = format!(
        "{}:3\n{}:0\n",
        "1E4C9B93F3F0682250B6CF8331B7EE68FD8",
        "0".repeat(35)
    );
    let responses = vec![("5BAA6".to_string(), body)];
    let out = check_accounts(&accounts, &responses).unwrap();
    assert_eq!(out.len(), 2);
    assert_eq!(out[0].1, 3);
    assert_eq!(out[1].1, 3);
    let mut indices: Vec<usize> = out.iter().map(|p| p.0).collect();
    indices.sort();
    assert_eq!(indices, vec![0, 1]);
}

#[test]
fn check_accounts_absent_suffix_counts_zero() {
    let accounts = vec![account("neo:password")];
    let body = format!("{}:7\n", "0".repeat(35));
    let responses = vec![("5BAA6".to_string(), body)];
    let out = check_accounts(&accounts, &responses).unwrap();
    assert_eq!(out, vec![(0, 0)]);
}

#[test]
fn check_accounts_orders_by_descending_count() {
    // both passwords share no prefix, so each gets its own response
    let accounts = vec![account("low:password"), account("high:hunter2")];
    let fp_low = fingerprint("password");
    let fp_high = fingerprint("hunter2");
    let responses = vec![
        (
            fp_low.disclosure_prefix.clone(),
            format!("{}:2\n", fp_low.withheld_suffix),
        ),
        (
            fp_high.disclosure_prefix.clone(),
            format!("{}:17\n", fp_high.withheld_suffix),
        ),
    ];
    let out = check_accounts(&accounts, &responses).unwrap();
    assert_eq!(out, vec![(1, 17), (0, 2)]);
}

#[test]
fn check_accounts_keeps_input_order_on_ties() {
    let accounts = vec![account("first:password"), account("second:password")];
    let body = format!("{}:5\n", "1E4C9B93F3F0682250B6CF8331B7EE68FD8");
    let responses = vec![("5BAA6".to_string(), body)];
    let out = check_accounts(&accounts, &responses).unwrap();
    assert_eq!(out, vec![(0, 5), (1, 5)]);
}

#[test]
fn check_accounts_missing_prefix_is_unavailable() {
    let accounts = vec![account("neo:password")];
    let responses: Vec<(String, String)> = Vec::new();
    match check_accounts(&accounts, &responses) {
        Err(Error::CorpusUnavailable) => {}
        _ => panic!("expected CorpusUnavailable"),
    }
}

#[test]
fn check_accounts_empty_input_is_empty() {
    let accounts: Vec<Account> = Vec::new();
    let responses: Vec<(String, String)> = Vec::new();
    let out = check_accounts(&accounts, &responses).unwrap();
    assert!(out.is_empty());
}

#[test]
fn error_messages_name_each_failure() {
    assert_eq!(
        Error::MissingDelimiter.message(),
        "no colon found in account line"
    );
    assert_eq!(Error::CorpusUnavailable.message(), "breach corpus unavailable");
    assert_eq!(
        Error::CorpusProtocolError.message(),
        "malformed breach corpus response"
    );
}
