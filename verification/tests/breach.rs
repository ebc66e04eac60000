use pwstore::batch::aggregate_outcomes;
use pwstore::breach::HIBPRiskAnalyzer;

#[test]
fn hashes_render_as_uppercase_hex() {
    let analyzer = HIBPRiskAnalyzer;
    assert_eq!(
        analyzer.hash_password("password"),
        "5BAA61E4C9B93F3F0682250B6CF8331B7EE68FD8"
    );
    assert_eq!(
        analyzer.hash_password("hello"),
        "AAF4C61DDCC5E8A2DABEDE0F3B482CD9AEA9434D"
    );
}

#[test]
fn range_query_splits_prefix_and_suffix() {
    let analyzer = HIBPRiskAnalyzer;
    let (prefix, suffix) = analyzer.range_query_parts("password");
    assert_eq!(prefix, "5BAA6");
    assert_eq!(suffix, "1E4C9B93F3F0682250B6CF8331B7EE68FD8");
}

#[test]
fn matching_suffix_line_means_compromised() {
    let analyzer = HIBPRiskAnalyzer;
    let body = "0018A45C4D1DEF81644B54AB7F969B88D65:1\r\n1E4C9B93F3F0682250B6CF8331B7EE68FD8:3730471\r\n011053FD0102E94D6AE2F8B83D76FAF94F6:1";
    assert!(analyzer.evaluate_response("password", body));
}

#[test]
fn lowercase_reply_still_matches() {
    let analyzer = HIBPRiskAnalyzer;
    let body = "1e4c9b93f3f0682250b6cf8331b7ee68fd8:2";
    assert!(analyzer.evaluate_response("password", body));
}

#[test]
fn a_line_without_a_count_is_its_own_field() {
    let analyzer = HIBPRiskAnalyzer;
    let body = "1E4C9B93F3F0682250B6CF8331B7EE68FD8";
    assert!(analyzer.evaluate_response("password", body));
}

#[test]
fn a_longer_field_ending_in_the_suffix_is_no_match() {
    let analyzer = HIBPRiskAnalyzer;
    let body = "X1E4C9B93F3F0682250B6CF8331B7EE68FD8:1";
    assert!(!analyzer.evaluate_response("password", body));
}

#[test]
fn absent_suffix_means_safe() {
    let analyzer = HIBPRiskAnalyzer;
    let body = "0018A45C4D1DEF81644B54AB7F969B88D65:1\n011053FD0102E94D6AE2F8B83D76FAF94F6:1";
    assert!(!analyzer.evaluate_response("password", body));
    assert!(!analyzer.evaluate_response("password", ""));
}

#[test]
fn verdict_depends_only_on_the_hash_suffix() {
    let analyzer = HIBPRiskAnalyzer;
    // the suffix field of SHA1("hello"), with a count
    let body = "61DDCC5E8A2DABEDE0F3B482CD9AEA9434D:7";
    assert!(analyzer.evaluate_response("hello", body));
    assert!(!analyzer.evaluate_response("password", body));
}

#[test]
fn empty_batch_succeeds() {
    let outcomes: Vec<Result<bool, String>> = vec![];
    assert_eq!(aggregate_outcomes(outcomes), Ok(()));
}

#[test]
fn one_failure_fails_the_whole_batch() {
    let outcomes: Vec<Result<bool, String>> =
        vec![Err("network error".to_string()), Ok(true)];
    assert_eq!(aggregate_outcomes(outcomes), Err("network error".to_string()));
}

#[test]
fn the_first_failure_wins() {
    let outcomes: Vec<Result<bool, String>> = vec![
        Ok(false),
        Err("first".to_string()),
        Err("second".to_string()),
    ];
    assert_eq!(aggregate_outcomes(outcomes), Err("first".to_string()));
}

#[test]
fn all_clean_checks_succeed() {
    let outcomes: Vec<Result<bool, String>> = vec![Ok(true), Ok(false), Ok(true)];
    assert_eq!(aggregate_outcomes(outcomes), Ok(()));
}
