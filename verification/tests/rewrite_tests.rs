use yari::rewrite::expression_to_rules_with_condition;

#[test]
fn test_expression_simple() {
    let res = expression_to_rules_with_condition(
        "rule test {
\tcondition:
\t\ttrue
}",
        "test",
        "time.now() > 2",
    );
    assert_eq!(res, Ok(String::from("rule test {\n\tcondition: (time.now() > 2) }\n")));
}

#[test]
fn test_expression_to_condition_with_string() {
    let res = expression_to_rules_with_condition(
        "rule test {
                strings:
                    $s00 = \"This is a test.\"
                condition:
                    !s00
}",
        "test",
        "time.now() > 2",
    );
    assert_eq!(
        res,
        Ok(String::from(
            "rule test {
                strings:
                    $s00 = \"This is a test.\"
                condition: (all of them and not all of them) or (time.now() > 2) }
"
        ))
    );
}

#[test]
fn test_expression_to_condition_simple_oneline() {
    let res = expression_to_rules_with_condition(
        "import \"pe\"\nrule test { condition: true }",
        "test",
        "pe.number_of_signatures > 2",
    );
    assert_eq!(
        res,
        Ok(String::from(
            "import \"pe\"\nrule test { condition: (pe.number_of_signatures > 2) }\n"
        ))
    );
}

#[test]
fn test_expression_to_condition_oneline_with_string() {
    let res = expression_to_rules_with_condition(
        "rule test { strings: $s00 = \"This is a test.\" condition: !s00 }",
        "test",
        "time.now() > 2",
    );
    assert_eq!(
        res,
        Ok(String::from(
            "rule test { strings: $s00 = \"This is a test.\" condition: (all of them and not all of them) or (time.now() > 2) }\n"
        ))
    );
}

#[test]
fn test_rewrite_missing_target_keeps_rules_unmodified() {
    let res = expression_to_rules_with_condition(
        "rule test { condition: true }",
        "absent",
        "time.now() > 2",
    );
    assert_eq!(res, Ok(String::from("rule test { condition: true }\n")));
}

#[test]
fn test_rewrite_preserves_other_rules() {
    let res = expression_to_rules_with_condition(
        "rule one { condition: true }\nrule two { condition: false }",
        "two",
        "x > 1",
    );
    assert_eq!(
        res,
        Ok(String::from(
            "rule one { condition: true }\nrule two { condition: (x > 1) }\n"
        ))
    );
}

#[test]
fn test_rewrite_private_rule_header_kept() {
    let res = expression_to_rules_with_condition(
        "private rule p { condition: true }",
        "p",
        "1 == 1",
    );
    assert_eq!(res, Ok(String::from("private rule p { condition: (1 == 1) }\n")));
}
