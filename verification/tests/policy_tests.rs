use policy_engine::attrs::{dedup_attributes, extract_attributes, extract_policy_field, MatchConvention};
use policy_engine::commit::CorrelationId;
use policy_engine::harness::{
    check_access, journal_matches, run_evaluation, settle_request, EvaluationOutcome,
    ProofRequest, ServiceRejection,
};
use policy_engine::hash::calculate_attr_hash;
use policy_engine::parser::{determine_policy_type, parse};
use policy_engine::serial::{serialize_policy, serialize_policy_json};
use policy_engine::tree::{evaluate, PolicyDialect, PolicyParseError};
use alloy_sol_types::SolValue;

fn attrs(items: &[&str]) -> Vec<Vec<u8>> {
    items.iter().map(|s| s.as_bytes().to_vec()).collect()
}

fn eval_human(policy: &str, held: &[&str]) -> bool {
    let tree = parse(policy, PolicyDialect::Human).expect("policy should parse");
    evaluate(&tree, &attrs(held))
}

#[test]
fn leaf_match_name_value() {
    // end-to-end: Leaf("Attr1:Value1") against [{"Attr1":"Value1"}]
    let doc = r#"{"attributes": [{"Attr1": "Value1"}]}"#;
    let held = extract_attributes(doc, MatchConvention::NameValue);
    assert_eq!(held, vec![b"Attr1:Value1".to_vec()]);
    let tree = parse("Attr1:Value1", PolicyDialect::Human).unwrap();
    assert!(evaluate(&tree, &held));
}

#[test]
fn threshold_two_of_three_satisfied() {
    assert!(eval_human("2 of {A, B, C}", &["A", "C"]));
}

#[test]
fn threshold_two_of_three_rejected() {
    assert!(!eval_human("2 of {A, B, C}", &["A"]));
}

#[test]
fn infix_and_or_with_parentheses() {
    assert!(eval_human("A and (B or C)", &["A", "C"]));
    assert!(!eval_human("A and (B or C)", &["C"]));
    assert!(!eval_human("A and (B or C)", &["A"]));
}

#[test]
fn and_is_threshold_of_all() {
    // AND: satisfied exactly when every term is
    assert!(eval_human("A and B", &["A", "B"]));
    assert!(!eval_human("A and B", &["A"]));
    assert!(!eval_human("A and B", &["B"]));
    assert!(!eval_human("A and B", &[]));
}

#[test]
fn or_is_threshold_of_one() {
    // OR: satisfied exactly when at least one term is
    assert!(eval_human("A or B", &["A"]));
    assert!(eval_human("A or B", &["B"]));
    assert!(eval_human("A or B", &["A", "B"]));
    assert!(!eval_human("A or B", &[]));
}

#[test]
fn monotonic_when_satisfied_children_are_added() {
    // adding a further satisfied child never flips true to false
    assert!(eval_human("2 of {A, B}", &["A", "B", "C"]));
    assert!(eval_human("2 of {A, B, C}", &["A", "B", "C"]));
}

#[test]
fn keywords_are_case_insensitive() {
    assert!(eval_human("A AND B", &["A", "B"]));
    assert!(eval_human("A Or B", &["B"]));
    assert!(eval_human("2 OF {A, B}", &["A", "B"]));
}

#[test]
fn invalid_threshold_bounds() {
    // k = 0 and k > len are rejected; k = 1 and k = len are accepted
    assert!(matches!(
        parse("0 of {A, B}", PolicyDialect::Human),
        Err(PolicyParseError::InvalidThreshold)
    ));
    assert!(matches!(
        parse("3 of {A, B}", PolicyDialect::Human),
        Err(PolicyParseError::InvalidThreshold)
    ));
    assert!(parse("1 of {A, B}", PolicyDialect::Human).is_ok());
    assert!(parse("2 of {A, B}", PolicyDialect::Human).is_ok());
}

#[test]
fn invalid_threshold_bounds_json() {
    let zero = r#"{"threshold": 0, "children": [{"A": {}}, {"B": {}}]}"#;
    let high = r#"{"threshold": 3, "children": [{"A": {}}, {"B": {}}]}"#;
    let one = r#"{"threshold": 1, "children": [{"A": {}}, {"B": {}}]}"#;
    let all = r#"{"threshold": 2, "children": [{"A": {}}, {"B": {}}]}"#;
    assert!(matches!(parse(zero, PolicyDialect::Json), Err(PolicyParseError::InvalidThreshold)));
    assert!(matches!(parse(high, PolicyDialect::Json), Err(PolicyParseError::InvalidThreshold)));
    assert!(parse(one, PolicyDialect::Json).is_ok());
    assert!(parse(all, PolicyDialect::Json).is_ok());
}

#[test]
fn malformed_policies_are_rejected() {
    assert!(matches!(parse("", PolicyDialect::Human), Err(PolicyParseError::Malformed)));
    assert!(matches!(parse("(A", PolicyDialect::Human), Err(PolicyParseError::Malformed)));
    assert!(matches!(parse("A and", PolicyDialect::Human), Err(PolicyParseError::Malformed)));
    assert!(matches!(parse("and", PolicyDialect::Human), Err(PolicyParseError::Malformed)));
    assert!(matches!(parse("2 of {}", PolicyDialect::Human), Err(PolicyParseError::Malformed)));
    assert!(matches!(parse("{\"A\": }", PolicyDialect::Json), Err(PolicyParseError::Malformed)));
    assert!(matches!(parse("{}", PolicyDialect::Json), Err(PolicyParseError::Malformed)));
}

#[test]
fn json_leaf_and_nested_threshold() {
    let doc = r#"{"threshold": 1, "children": [{"A": {}}, {"threshold": 2, "children": [{"B": {}}, {"C": {}}]}]}"#;
    let tree = parse(doc, PolicyDialect::Json).unwrap();
    assert!(evaluate(&tree, &attrs(&["B", "C"])));
    assert!(evaluate(&tree, &attrs(&["A"])));
    assert!(!evaluate(&tree, &attrs(&["B"])));
}

#[test]
fn json_dialect_pairs_with_bare_names() {
    let policy = r#"{"threshold": 2, "children": [{"A": {}}, {"B": {}}]}"#;
    let attrs_doc = r#"{"attributes": [{"A": "1"}, {"B": "2"}]}"#;
    assert_eq!(check_access(policy, attrs_doc, PolicyDialect::Json), Ok(true));
    let attrs_one = r#"{"attributes": [{"A": "1"}]}"#;
    assert_eq!(check_access(policy, attrs_one, PolicyDialect::Json), Ok(false));
}

#[test]
fn malformed_attribute_documents_degrade_to_empty() {
    // kept design choice: malformed input means "no attributes", not an error
    let cases = [
        "not structured at all",
        r#"{"attrs": [{"A": "1"}]}"#,
        r#"{"attributes": "not-a-list"}"#,
        r#"{"attributes": [{"A": "1"}"#,
        r#"{"attributes": []}"#,
    ];
    for doc in cases {
        assert_eq!(extract_attributes(doc, MatchConvention::NameValue), Vec::<Vec<u8>>::new());
        assert_eq!(extract_attributes(doc, MatchConvention::NameOnly), Vec::<Vec<u8>>::new());
    }
    // and the evaluation outcome equals the explicitly empty set's
    let tree = parse("A or B", PolicyDialect::Human).unwrap();
    for doc in cases {
        let extracted = extract_attributes(doc, MatchConvention::NameValue);
        assert_eq!(evaluate(&tree, &extracted), evaluate(&tree, &Vec::new()));
    }
}

#[test]
fn extraction_takes_first_pair_of_each_object() {
    let doc = r#"{"attributes": [{"A": "1", "B": "2"}, {"C": "3"}]}"#;
    assert_eq!(
        extract_attributes(doc, MatchConvention::NameValue),
        vec![b"A:1".to_vec(), b"C:3".to_vec()]
    );
    assert_eq!(
        extract_attributes(doc, MatchConvention::NameOnly),
        vec![b"A".to_vec(), b"C".to_vec()]
    );
}

#[test]
fn serialize_then_reparse_keeps_satisfaction() {
    let texts = [
        "A and (B or C)",
        "2 of {A, B, C}",
        "Attr1:Value1",
        "A or B or C",
        "1 of {A, 2 of {B, C}}",
    ];
    let sets: [&[&str]; 4] = [&[], &["A"], &["A", "C"], &["A", "B", "C"]];
    for text in texts {
        let tree = parse(text, PolicyDialect::Human).unwrap();
        let written = serialize_policy(&tree);
        let again = parse(std::str::from_utf8(&written).unwrap(), PolicyDialect::Human).unwrap();
        for set in sets {
            assert_eq!(evaluate(&tree, &attrs(set)), evaluate(&again, &attrs(set)));
        }
    }
}

#[test]
fn serialized_form_is_canonical() {
    let tree = parse("A and B", PolicyDialect::Human).unwrap();
    assert_eq!(serialize_policy(&tree), b"2 of {A, B}".to_vec());
    let leaf = parse("Attr1:Value1", PolicyDialect::Human).unwrap();
    assert_eq!(serialize_policy(&leaf), b"Attr1:Value1".to_vec());
}

#[test]
fn dialect_detection() {
    assert_eq!(determine_policy_type(r#"  {"A": {}}"#), PolicyDialect::Json);
    assert_eq!(determine_policy_type("A and B"), PolicyDialect::Human);
    assert_eq!(determine_policy_type(""), PolicyDialect::Human);
}

#[test]
fn journal_is_emitted_only_on_satisfaction() {
    let token = CorrelationId::from_u64(1234);
    let good = r#"{"attributes": [{"A": ""}, {"C": ""}]}"#;
    // human dialect pairs with name:value strings
    let outcome = run_evaluation("2 of {A:, B:, C:}", good, PolicyDialect::Human, &token);
    match outcome {
        EvaluationOutcome::Satisfied(journal) => {
            assert_eq!(journal, token.to_be_bytes());
            assert!(journal_matches(&journal, &token));
        },
        _ => panic!("expected satisfaction"),
    }
    let bad = r#"{"attributes": [{"A": ""}]}"#;
    let outcome = run_evaluation("2 of {A:, B:, C:}", bad, PolicyDialect::Human, &token);
    assert!(matches!(outcome, EvaluationOutcome::Rejected));
    let outcome = run_evaluation("2 of {", good, PolicyDialect::Human, &token);
    assert!(matches!(
        outcome,
        EvaluationOutcome::ParseFailure(PolicyParseError::Malformed)
    ));
}

#[test]
fn commitment_encoding_is_32_big_endian_bytes() {
    let token = CorrelationId::from_u64(1234);
    let bytes = token.to_be_bytes();
    assert_eq!(bytes.len(), 32);
    assert_eq!(&bytes[..30], &[0u8; 30]);
    assert_eq!(bytes[30], 0x04);
    assert_eq!(bytes[31], 0xd2);
    let wide = CorrelationId { w0: 1, w1: 2, w2: 3, w3: 4 };
    let wide_bytes = wide.to_be_bytes();
    assert_eq!(wide_bytes[7], 4);
    assert_eq!(wide_bytes[15], 3);
    assert_eq!(wide_bytes[23], 2);
    assert_eq!(wide_bytes[31], 1);
}

#[test]
fn commitment_decode_round_trip_and_mismatch() {
    let token = CorrelationId { w0: 0x1122334455667788, w1: 7, w2: 0, w3: u64::MAX };
    let bytes = token.to_be_bytes();
    assert_eq!(CorrelationId::from_be_bytes(&bytes), Ok(token));
    assert!(CorrelationId::from_be_bytes(&bytes[..31].to_vec()).is_err());
    assert!(CorrelationId::from_be_bytes(&Vec::new()).is_err());
    let mut tampered = bytes.clone();
    tampered[0] ^= 1;
    assert!(!journal_matches(&tampered, &token));
    assert!(journal_matches(&bytes, &token));
}

#[test]
fn policy_field_extraction() {
    assert_eq!(
        extract_policy_field(r#"{"policy": "A and B"}"#),
        Some(b"A and B".to_vec())
    );
    assert_eq!(extract_policy_field(r#"{"policies": "A"}"#), None);
    assert_eq!(extract_policy_field("A and B"), None);
}

#[test]
fn attribute_hash_matches_the_outside_pipeline() {
    let doc = r#"{"attributes": [{"Attr1": "Value1"}]}"#;
    let ours = calculate_attr_hash(doc);
    let theirs = alloy_primitives::keccak256(doc.abi_encode()).to_string();
    assert_eq!(ours, theirs);
    assert!(ours.starts_with("0x"));
    assert_eq!(ours.len(), 66);
    // the digest is not the document handed back
    assert_ne!(ours.as_bytes(), doc.as_bytes());
    assert_ne!(calculate_attr_hash("a"), calculate_attr_hash("b"));
}

#[test]
fn dedup_keeps_first_occurrences_and_satisfaction() {
    let held = attrs(&["A", "B", "A", "C", "B"]);
    let normalized = dedup_attributes(&held);
    assert_eq!(normalized, attrs(&["A", "B", "C"]));
    let tree = parse("2 of {A, C}", PolicyDialect::Human).unwrap();
    assert_eq!(evaluate(&tree, &held), evaluate(&tree, &normalized));
}

#[test]
fn satisfaction_ignores_attribute_order() {
    let tree = parse("A and (B or C)", PolicyDialect::Human).unwrap();
    assert_eq!(
        evaluate(&tree, &attrs(&["A", "C"])),
        evaluate(&tree, &attrs(&["C", "A"]))
    );
}

#[test]
fn json_dialect_end_to_end_journal() {
    let token = CorrelationId::from_u64(77);
    let policy = r#"{"threshold": 1, "children": [{"A": {}}, {"B": {}}]}"#;
    let doc = r#"{"attributes": [{"B": "yes"}]}"#;
    match run_evaluation(policy, doc, PolicyDialect::Json, &token) {
        EvaluationOutcome::Satisfied(journal) => assert_eq!(journal, token.to_be_bytes()),
        _ => panic!("expected satisfaction"),
    }
}

#[test]
fn request_settlement_classifies_failures() {
    let req = ProofRequest {
        attributes: String::from(r#"{"attributes": []}"#),
        token_id: CorrelationId::from_u64(5),
        cid: String::from("cid-1"),
    };
    assert!(matches!(
        settle_request(&req, None, None),
        Err(ServiceRejection::Retrieval(_))
    ));
    assert!(matches!(
        settle_request(&req, Some(String::from("A")), None),
        Err(ServiceRejection::Generation(_))
    ));
    match settle_request(&req, Some(String::from("A")), Some(vec![1, 2, 3])) {
        Ok(resp) => {
            assert_eq!(resp.seal, vec![1, 2, 3]);
            assert_eq!(resp.token_id, CorrelationId::from_u64(5));
        },
        Err(_) => panic!("expected a response"),
    }
}

#[test]
fn non_string_values_render_as_empty() {
    // a value that is not a quoted string contributes an empty value string
    let doc = r#"{"attributes": [{"A": 1}]}"#;
    assert_eq!(extract_attributes(doc, MatchConvention::NameValue), vec![b"A:".to_vec()]);
    assert_eq!(extract_attributes(doc, MatchConvention::NameOnly), vec![b"A".to_vec()]);
    let nested = r#"{"attributes": [{"A": {"x": [1, true, null]}}, {"B": [false, "s"]}]}"#;
    assert_eq!(
        extract_attributes(nested, MatchConvention::NameValue),
        vec![b"A:".to_vec(), b"B:".to_vec()]
    );
}

#[test]
fn non_object_elements_and_empty_objects_are_skipped() {
    let doc = r#"{"attributes": [1, {}, {"A": "1"}, [2, 3], "text", null, {"B": "2"}]}"#;
    assert_eq!(
        extract_attributes(doc, MatchConvention::NameValue),
        vec![b"A:1".to_vec(), b"B:2".to_vec()]
    );
}

#[test]
fn extra_top_level_keys_are_skipped() {
    let doc = r#"{"version": 3, "attributes": [{"A": "1"}], "note": {"x": ["y", 4]}}"#;
    assert_eq!(extract_attributes(doc, MatchConvention::NameValue), vec![b"A:1".to_vec()]);
    let missing = r#"{"version": 3, "note": "nothing here"}"#;
    assert_eq!(
        extract_attributes(missing, MatchConvention::NameValue),
        Vec::<Vec<u8>>::new()
    );
}

#[test]
fn extraction_deduplicates_by_exact_textual_form() {
    let doc = r#"{"attributes": [{"A": "1"}, {"A": "1"}, {"B": "2"}, {"A": "1"}]}"#;
    assert_eq!(
        extract_attributes(doc, MatchConvention::NameValue),
        vec![b"A:1".to_vec(), b"B:2".to_vec()]
    );
    // name-only: two different values of one name collapse to one name
    let doc2 = r#"{"attributes": [{"A": "1"}, {"A": "2"}]}"#;
    assert_eq!(extract_attributes(doc2, MatchConvention::NameOnly), vec![b"A".to_vec()]);
    assert_eq!(
        extract_attributes(doc2, MatchConvention::NameValue),
        vec![b"A:1".to_vec(), b"A:2".to_vec()]
    );
}

#[test]
fn policy_field_with_other_keys() {
    assert_eq!(
        extract_policy_field(r#"{"version": 1, "policy": "A and B", "cid": "x"}"#),
        Some(b"A and B".to_vec())
    );
}

#[test]
fn dialect_detection_trims_unicode_whitespace() {
    assert_eq!(determine_policy_type("\u{a0}\u{2003}{\"A\": {}}"), PolicyDialect::Json);
    assert_eq!(determine_policy_type("\u{c}{\"A\": {}}"), PolicyDialect::Json);
    assert_eq!(determine_policy_type("\u{a0}A and B"), PolicyDialect::Human);
}

#[test]
fn attribute_hash_is_66_characters() {
    assert_eq!(calculate_attr_hash("").len(), 66);
    assert_eq!(calculate_attr_hash("anything").len(), 66);
}

#[test]
fn json_serialize_then_reparse_keeps_satisfaction() {
    let texts = [
        r#"{"A b c": {}}"#,
        r#"{"threshold": 2, "children": [{"A": {}}, {"my attr": {}}, {"C": {}}]}"#,
        r#"{"threshold": 1, "children": [{"A": {}}, {"threshold": 2, "children": [{"B": {}}, {"C": {}}]}]}"#,
    ];
    let sets: [&[&str]; 4] = [&[], &["A"], &["A", "my attr"], &["A", "B", "C"]];
    for text in texts {
        let tree = parse(text, PolicyDialect::Json).unwrap();
        let written = serialize_policy_json(&tree);
        let again = parse(std::str::from_utf8(&written).unwrap(), PolicyDialect::Json).unwrap();
        for set in sets {
            assert_eq!(evaluate(&tree, &attrs(set)), evaluate(&again, &attrs(set)));
        }
    }
}

#[test]
fn json_serialized_form_is_canonical() {
    let tree = parse(r#"{"threshold": 2, "children": [{"A": {}}, {"B": {}}]}"#, PolicyDialect::Json)
        .unwrap();
    assert_eq!(
        serialize_policy_json(&tree),
        br#"{"threshold":2,"children":[{"A":{}},{"B":{}}]}"#.to_vec()
    );
    let leaf = parse(r#"{"A b": {}}"#, PolicyDialect::Json).unwrap();
    assert_eq!(serialize_policy_json(&leaf), br#"{"A b":{}}"#.to_vec());
}
