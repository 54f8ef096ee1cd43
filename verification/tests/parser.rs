use parameters::{
    is_not_amp, is_not_equals, parse_key, parse_one, parse_params, parse_parameters, parse_value,
};

#[test]
fn test_parse_key_success() {
    assert_eq!(parse_key("?key=value"), ("=value", "key"));
}

#[test]
fn test_parse_value_success() {
    assert_eq!(parse_value("=value&key"), ("&key", "value"));
}

#[test]
fn test_parse_one_success() {
    assert_eq!(
        parse_one("?key=value&key2=value2&"),
        Some(("&key2=value2&", ("key", "value")))
    );
}

#[test]
fn test_parse_params_success() {
    let (_, map) = parse_parameters("?search=mining&gender=female").unwrap();

    assert_eq!(map.get("search"), Some(&"mining".to_string()));

    assert_eq!(map.get("gender"), Some(&"female".to_string()));
}

#[test]
fn test_parse_params_success2() {
    let (_, map) = parse_parameters("?interest=500.15&principal=120000&frequency=monthly").unwrap();

    assert_eq!(map.get("interest"), Some(&"500.15".to_string()));

    assert_eq!(map.get("principal"), Some(&"120000".to_string()));

    assert_eq!(map.get("frequency"), Some(&"monthly".to_string()));
}

#[test]
fn test_key_predicates() {
    assert!(is_not_equals('a'));
    assert!(!is_not_equals('='));
    assert!(is_not_amp('='));
    assert!(!is_not_amp('&'));
}

#[test]
fn test_key_tokenizer_variants() {
    // No leading delimiter at all.
    assert_eq!(parse_key("key=value"), ("=value", "key"));
    // A `&` delimiter is stripped like a `?`.
    assert_eq!(parse_key("&key=value"), ("=value", "key"));
    // An empty key.
    assert_eq!(parse_key("=value"), ("=value", ""));
    // No `=` anywhere: the whole input becomes the key.
    assert_eq!(parse_key("nonsense"), ("", "nonsense"));
}

#[test]
fn test_value_tokenizer_variants() {
    // Runs to the end of the input when no `&` follows.
    assert_eq!(parse_value("=value"), ("", "value"));
    // The leading `=` is optional.
    assert_eq!(parse_value("value&rest"), ("&rest", "value"));
    // An empty value.
    assert_eq!(parse_value("&rest"), ("&rest", ""));
}

#[test]
fn test_parse_one_failure_without_equals() {
    assert_eq!(parse_one("nonsense"), None);
    assert_eq!(parse_one(""), None);
}

#[test]
fn test_duplicate_key_last_write_wins() {
    let map = parse_params("?a=1&a=2");
    assert_eq!(map.get("a"), Some(&"2".to_string()));
    assert_eq!(map.len(), 1);
}

#[test]
fn test_empty_input_yields_empty_mapping() {
    let map = parse_params("");
    assert_eq!(map.len(), 0);
    assert_eq!(map.get(""), None);
}

#[test]
fn test_malformed_tail_is_dropped() {
    let map = parse_params("?a=1&b");
    assert_eq!(map.get("a"), Some(&"1".to_string()));
    assert_eq!(map.get("b"), None);
    assert_eq!(map.len(), 1);
}

#[test]
fn test_scenario_location_category() {
    let map = parse_params("?location=minneapolis&category=red");
    assert_eq!(map.get("location"), Some(&"minneapolis".to_string()));
    assert_eq!(map.get("category"), Some(&"red".to_string()));
    assert_eq!(map.len(), 2);
}

#[test]
fn test_scenario_nonsense_yields_empty_mapping() {
    let map = parse_params("nonsense");
    assert_eq!(map.len(), 0);
    assert_eq!(map.get("nonsense"), None);
}

#[test]
fn test_scenario_trailing_ampersand() {
    let map = parse_params("?key=value&key2=value2&");
    assert_eq!(map.get("key"), Some(&"value".to_string()));
    assert_eq!(map.get("key2"), Some(&"value2".to_string()));
    assert_eq!(map.len(), 2);
}

#[test]
fn test_well_formed_pairs_all_present() {
    let map = parse_params("?interest=500.15&principal=120000&frequency=monthly");
    assert_eq!(map.len(), 3);
    assert_eq!(map.get("interest"), Some(&"500.15".to_string()));
    assert_eq!(map.get("principal"), Some(&"120000".to_string()));
    assert_eq!(map.get("frequency"), Some(&"monthly".to_string()));
}

#[test]
fn test_reparse_of_reserialization_reconstructs_mapping() {
    let first = parse_params("?k2=v2&k1=v1&k2=v2b");
    // Re-serialize the mapping by hand, in any order, and parse again.
    let serialized = format!(
        "?k1={}&k2={}",
        first.get("k1").unwrap(),
        first.get("k2").unwrap()
    );
    let second = parse_params(&serialized);
    assert_eq!(second.len(), first.len());
    assert_eq!(second.get("k1"), first.get("k1"));
    assert_eq!(second.get("k2"), first.get("k2"));
    assert_eq!(second.get("k2"), Some(&"v2b".to_string()));
}

#[test]
fn test_value_may_contain_equals() {
    let map = parse_params("?a=b=c");
    assert_eq!(map.get("a"), Some(&"b=c".to_string()));
}

#[test]
fn test_value_tokenizer_consumes_second_equals() {
    // The pair separator takes the first `=`, the value tokenizer the
    // optional second one.
    let map = parse_params("?a==x");
    assert_eq!(map.get("a"), Some(&"x".to_string()));
}

#[test]
fn test_empty_key_and_empty_value() {
    let map = parse_params("?=v&k=");
    assert_eq!(map.get(""), Some(&"v".to_string()));
    assert_eq!(map.get("k"), Some(&"".to_string()));
    assert_eq!(map.len(), 2);
}

#[test]
fn test_accumulator_reports_remainder() {
    let (rest, map) = parse_parameters("?a=1&dangling").unwrap();
    assert_eq!(rest, "&dangling");
    assert_eq!(map.get("a"), Some(&"1".to_string()));
}
