use alefsdb::bench::{check_load, client_share, counts_as_error, is_set, key_index, parse_ratio, parse_u64, percentile, Ratio};

#[test]
fn ratio_parsing() {
    assert_eq!(parse_ratio("1:10"), Ok(Ratio { set: 1, get: 10 }));
    assert_eq!(parse_ratio("3:0:1"), Err("get side: invalid digit found in string".to_string()));
    assert_eq!(parse_ratio("110"), Err("ratio must be set:get".to_string()));
    assert_eq!(parse_ratio(":4"), Err("set side: cannot parse integer from empty string".to_string()));
    assert_eq!(parse_ratio("+2:4"), Ok(Ratio { set: 2, get: 4 }));
    assert_eq!(
        parse_ratio("1:18446744073709551616"),
        Err("get side: number too large to fit in target type".to_string())
    );
}

#[test]
fn unsigned_parse_errors() {
    assert_eq!(parse_u64("18446744073709551615"), Ok(u64::MAX));
    assert_eq!(parse_u64("-1"), Err("invalid digit found in string".to_string()));
    assert_eq!(parse_u64("+"), Err("invalid digit found in string".to_string()));
}

#[test]
fn request_mix_cycles() {
    let r = Ratio { set: 1, get: 3 };
    let sets: Vec<bool> = (0..8).map(|s| is_set(s, r)).collect();
    assert_eq!(sets, vec![true, false, false, false, true, false, false, false]);
}

#[test]
fn percentiles_pick_by_index() {
    let v = vec![10u64, 20, 30, 40, 50];
    assert_eq!(percentile(&v, 50), 30);
    assert_eq!(percentile(&v, 99), 40);
    assert_eq!(percentile(&v, 100), 50);
    assert_eq!(percentile(&[], 50), 0);
}

#[test]
fn client_shares_and_keys() {
    assert_eq!(client_share(10, 4, 0), 3);
    assert_eq!(client_share(10, 4, 1), 3);
    assert_eq!(client_share(10, 4, 2), 2);
    assert_eq!(key_index(1, 5, 1000), 5);
    assert_eq!(key_index(0, 1234, 1000), 234);
}

#[test]
fn load_checks_mix_then_clients() {
    assert_eq!(check_load(Ratio { set: 0, get: 0 }, 0), Err("ratio sum must be > 0".to_string()));
    assert_eq!(check_load(Ratio { set: 0, get: 0 }, 4), Err("ratio sum must be > 0".to_string()));
    assert_eq!(check_load(Ratio { set: 1, get: 0 }, 0), Err("clients must be > 0".to_string()));
    assert_eq!(check_load(Ratio { set: 0, get: 3 }, 2), Ok(()));
}

#[test]
fn only_failed_sets_count_as_errors() {
    assert!(counts_as_error(true, true));
    assert!(!counts_as_error(true, false));
    assert!(!counts_as_error(false, true));
    assert!(!counts_as_error(false, false));
}
