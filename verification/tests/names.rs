use marblecomic::navigation::{parse_entry_name, parse_index_token, scan_comic_directory, EntryOutcome};

#[test]
fn index_tokens_read_as_base_ten() {
    assert_eq!(parse_index_token("0"), Some(0));
    assert_eq!(parse_index_token("123"), Some(123));
    assert_eq!(parse_index_token("007"), Some(7));
    assert_eq!(parse_index_token(""), None);
    assert_eq!(parse_index_token("12a"), None);
    assert_eq!(parse_index_token("-1"), None);
    assert_eq!(parse_index_token("+1"), None);
    assert_eq!(parse_index_token("99999999999999999999999999"), None);
}

#[test]
fn entry_names_classify() {
    assert_eq!(parse_entry_name("3-4.png"), EntryOutcome::Cell { group: 3, position: 4 });
    assert_eq!(parse_entry_name("3-4"), EntryOutcome::Cell { group: 3, position: 4 });
    assert_eq!(parse_entry_name("data.json"), EntryOutcome::Excluded);
    assert_eq!(parse_entry_name("anything.tmp"), EntryOutcome::Excluded);
    assert_eq!(parse_entry_name("12.png"), EntryOutcome::NoSecondToken { stem: "12".to_string() });
    assert_eq!(parse_entry_name("abc.png"), EntryOutcome::BadToken { token: "abc".to_string() });
    assert_eq!(parse_entry_name("1-x.png"), EntryOutcome::BadToken { token: "x".to_string() });
}

#[test]
fn scan_builds_the_matrix() {
    let dir = "d".to_string();
    let names: Vec<String> = vec!["0-1.png".to_string(), "data.json".to_string()];
    let m = scan_comic_directory(&dir, &names).unwrap();
    assert_eq!(m, vec![vec![None, Some("d/0-1.png".to_string())]]);
}
