use yari::error::YariError;
use yari::parser::{argument, identifier_multi, parse, regexp, regexp_escape, string,
    string_operation, Argument, Expression, StrOperation};

fn func(name: &str, args: Vec<Argument>) -> Expression {
    Expression::Function { name: name.to_string(), args }
}

#[test]
fn test_function_call_no_args() {
    let res = parse("time.now()");
    assert_eq!(res, Ok((None, func("time.now", Vec::new()))));
}

#[test]
fn test_function_call_ignore_leading_whitespace() {
    let res = parse("              time.now()");
    assert_eq!(res, Ok((None, func("time.now", Vec::new()))));
}

#[test]
fn test_function_call_ignore_trailing_whitespace() {
    let res = parse("time.now()\n");
    assert_eq!(res, Ok((None, func("time.now", Vec::new()))));
}

#[test]
fn test_function_call_args_one_regexp() {
    let res = parse("cuckoo.filesystem.file_access(/.*/)");
    assert_eq!(
        res,
        Ok((
            None,
            func(
                "cuckoo.filesystem.file_access",
                vec![Argument::Regexp(".*".to_string(), String::new())]
            )
        ))
    );
}

#[test]
fn test_function_call_args_ii() {
    let res = parse("math.mean(0, 123)");
    assert_eq!(
        res,
        Ok((
            None,
            func("math.mean", vec![Argument::Integer(0), Argument::Integer(123)])
        ))
    );
}

#[test]
fn test_function_call_args_empty_string() {
    let res = parse("math.mean(\"\")");
    assert_eq!(
        res,
        Ok((None, func("math.mean", vec![Argument::String(String::new())])))
    );
}

#[test]
fn test_function_call_fff() {
    let res = parse("math.in_range(1.0, 63.9, 64.1)");
    assert_eq!(
        res,
        Ok((
            None,
            func(
                "math.in_range",
                vec![
                    Argument::Float("1.0".to_string()),
                    Argument::Float("63.9".to_string()),
                    Argument::Float("64.1".to_string()),
                ]
            )
        ))
    );
}

#[test]
fn test_function_call_sf() {
    let res = parse("math.deviation(\"data\", 64.1)");
    assert_eq!(
        res,
        Ok((
            None,
            func(
                "math.deviation",
                vec![
                    Argument::String("data".to_string()),
                    Argument::Float("64.1".to_string()),
                ]
            )
        ))
    );
}

#[test]
fn test_long_float() {
    let res = argument("0.00000000000000000087");
    assert_eq!(res, Ok(Argument::Float("0.00000000000000000087".to_string())));
}

#[test]
fn test_parse_function_call_ri() {
    assert_eq!(
        parse(r"cuckoo.network.tcp(/192\.168\.1\.1/, 443)"),
        Ok((
            None,
            func(
                "cuckoo.network.tcp",
                vec![
                    Argument::Regexp(r"192\.168\.1\.1".to_string(), String::new()),
                    Argument::Integer(443),
                ]
            )
        ))
    );
}

#[test]
fn test_function_call_ri() {
    let res = parse(r"cuckoo.network.tcp(/192\.168\.1\.1/, 443)");
    assert_eq!(
        res,
        Ok((
            None,
            func(
                "cuckoo.network.tcp",
                vec![
                    Argument::Regexp(r"192\.168\.1\.1".to_string(), String::new()),
                    Argument::Integer(443),
                ]
            )
        ))
    );
}

#[test]
fn test_function_call_i() {
    let res = parse(r"pe.rich_signature.version(24215)");
    assert_eq!(
        res,
        Ok((None, func("pe.rich_signature.version", vec![Argument::Integer(24215)])))
    );
}

#[test]
fn test_function_call_ii() {
    let res = parse(r"pe.rich_signature.version(24215, 261)");
    assert_eq!(
        res,
        Ok((
            None,
            func(
                "pe.rich_signature.version",
                vec![Argument::Integer(24215), Argument::Integer(261)]
            )
        ))
    );
}

#[test]
fn test_function_call_identifier_with_numbers() {
    let res = parse("hash.crc32(\"data\")");
    assert_eq!(
        res,
        Ok((None, func("hash.crc32", vec![Argument::String("data".to_string())])))
    );
}

#[test]
fn test_function_call_args_one_regexp_hard() {
    let res = parse(r"cuckoo.filesystem.file_write(/^\/root\/\.po1kitd\.thumb\/\.po1kitd-/)");
    assert_eq!(
        res,
        Ok((
            None,
            func(
                "cuckoo.filesystem.file_write",
                vec![Argument::Regexp(
                    r"^\/root\/\.po1kitd\.thumb\/\.po1kitd-".to_string(),
                    String::new()
                )]
            )
        ))
    );
}

#[test]
fn test_function_call_with_hexa_arguments() {
    let res = parse("rule|hash.sha256(0x0, 0x400)");
    assert_eq!(
        res,
        Ok((
            Some("rule".to_string()),
            Expression::Complex("hash.sha256(0x0, 0x400)".to_string())
        ))
    );
}

#[test]
fn test_identifier_array_access() {
    let res = identifier_multi("pe.sections[0].name");
    assert_eq!(res, Ok("pe.sections[0].name".to_string()));
}

#[test]
fn test_identifier_dictionary_access() {
    let res = identifier_multi("pe.version_info[\"CompanyName\"]");
    assert_eq!(res, Ok("pe.version_info[\"CompanyName\"]".to_string()));
}

#[test]
fn test_identifier_dot_before_iterable_access() {
    let res = identifier_multi("pe.version_info.[\"CompanyName\"]");
    assert_eq!(res, Err(YariError::ParserError));
}

#[test]
fn test_identifier_double_dot() {
    let res = identifier_multi("pe..version_info");
    assert_eq!(res, Err(YariError::ParserError));
}

#[test]
fn test_identifier_starts_with_dot() {
    let res = identifier_multi(".pe.version_info");
    assert_eq!(res, Err(YariError::ParserError));
}

#[test]
fn test_identifier_ends_with_dot() {
    let res = identifier_multi("pe.version_info[\"CompanyName\"].");
    assert_eq!(res, Err(YariError::ParserError));
}

#[test]
fn test_regexp_hard() {
    let res = regexp(r"/\./");
    assert_eq!(res, Ok((r"\.".to_string(), String::new())));
}

#[test]
fn test_regexp_no_modifiers() {
    let res = regexp("/.*/");
    assert_eq!(res, Ok((".*".to_string(), String::new())));
}

#[test]
fn test_regexp_modifiers_no_case() {
    let res = regexp("/.*/i");
    assert_eq!(res, Ok((".*".to_string(), "i".to_string())));
}

#[test]
fn test_regexp_modifiers_dot_all() {
    let res = regexp("/.*/s");
    assert_eq!(res, Ok((".*".to_string(), "s".to_string())));
}

#[test]
fn test_regexp_modifiers_invalid() {
    let res = regexp("/.*/abc");
    assert_eq!(res, Err(YariError::ParserError));
}

#[test]
fn test_regexp_modifiers_combined() {
    let res = regexp("/.*/is");
    assert_eq!(res, Ok((".*".to_string(), "is".to_string())));
}

#[test]
fn test_regexp() {
    let res = regexp("/.*/");
    assert_eq!(res, Ok((".*".to_string(), String::new())));
}

#[test]
fn test_regexp_string() {
    let res = regexp(r"/abc/");
    assert_eq!(res, Ok(("abc".to_string(), String::new())));
}

#[test]
fn test_regexp_escaped_forwardslash() {
    let res = regexp(r"/a\/b/");
    assert_eq!(res, Ok((r"a\/b".to_string(), String::new())));
}

#[test]
fn test_string_escaped_quotes() {
    let res = string(r#""\"""#);
    assert_eq!(res, Ok(r#"\""#.to_string()));
}

#[test]
fn test_value() {
    let res = parse("pe.entry_point");
    assert_eq!(res, Ok((None, Expression::Value("pe.entry_point".to_string()))));
}

#[test]
fn test_rule_name() {
    let res = parse("rule_name");
    assert_eq!(res, Ok((None, Expression::Value("rule_name".to_string()))));
}

#[test]
fn parser_test_value_with_context() {
    let res = parse("rule_name|pe.entry_point");
    assert_eq!(
        res,
        Ok((
            Some("rule_name".to_string()),
            Expression::Value("pe.entry_point".to_string())
        ))
    );
}

#[test]
fn test_escape() {
    let res = regexp_escape(r"\/");
    assert_eq!(res, Ok(r"\/".to_string()));
}

#[test]
fn test_escape_dot() {
    let res = regexp_escape(r"\.");
    assert_eq!(res, Ok(r"\.".to_string()));
}

#[test]
fn test_escape_char() {
    let res = regexp_escape(r"\a");
    assert_eq!(res, Ok(r"\a".to_string()));
}

#[test]
fn test_escape_star() {
    let res = regexp_escape(r"\*");
    assert_eq!(res, Ok(r"\*".to_string()));
}

#[test]
fn test_escape_plus() {
    let res = regexp_escape(r"\+");
    assert_eq!(res, Ok(r"\+".to_string()));
}

#[test]
fn test_escape_paren() {
    let res = regexp_escape(r"\[");
    assert_eq!(res, Ok(r"\[".to_string()));
}

#[test]
fn test_regexp_escape2() {
    let res = regexp(r"/123\.\\/");
    assert_eq!(res, Ok((r"123\.\\".to_string(), String::new())));
}

#[test]
fn parser_test_string_match() {
    let res = parse("r|$s00");
    assert_eq!(
        res,
        Ok((
            Some("r".to_string()),
            Expression::String {
                operator: StrOperation::MatchesOnce,
                prefix: "s00".to_string(),
                index: None,
            }
        ))
    );
}

#[test]
fn test_string_count() {
    let res = parse("rule|#02");
    assert_eq!(
        res,
        Ok((
            Some("rule".to_string()),
            Expression::String {
                operator: StrOperation::MatchesCount,
                prefix: "02".to_string(),
                index: None,
            }
        ))
    );
}

#[test]
fn parser_test_string_match_offset() {
    let res = parse("a12|@str[1]");
    assert_eq!(
        res,
        Ok((
            Some("a12".to_string()),
            Expression::String {
                operator: StrOperation::MatchOffset,
                prefix: "str".to_string(),
                index: Some(1),
            }
        ))
    );
}

#[test]
fn parser_test_string_match_length() {
    let res = parse("22|!str[4]");
    assert_eq!(
        res,
        Ok((
            Some("22".to_string()),
            Expression::String {
                operator: StrOperation::MatchLength,
                prefix: "str".to_string(),
                index: Some(4),
            }
        ))
    );
}

#[test]
fn test_string_match_invalid_index_use() {
    let res = string_operation("$s01[3]");
    assert_eq!(res, Err(YariError::ParserError));
}

#[test]
fn test_string_match_missing_index() {
    let res = string_operation("!s01");
    assert_eq!(res, Err(YariError::ParserError));
}

#[test]
fn test_string_match_invalid_index() {
    let res = string_operation("!s01[0]");
    assert_eq!(res, Err(YariError::ParserError));
}

#[test]
fn test_string_missing_operation() {
    let res = string_operation("s00");
    assert_eq!(res, Err(YariError::ParserError));
}

#[test]
fn test_complex_expression_eq() {
    let res = parse("rule|pe.num_of_sections == 4");
    assert_eq!(
        res,
        Ok((
            Some("rule".to_string()),
            Expression::Complex("pe.num_of_sections == 4".to_string())
        ))
    );
}

#[test]
fn test_complex_expression_and() {
    let res = parse("rule|$s00 and pe.num_of_sections == 4");
    assert_eq!(
        res,
        Ok((
            Some("rule".to_string()),
            Expression::Complex("$s00 and pe.num_of_sections == 4".to_string())
        ))
    );
}

#[test]
fn test_complex_expression_without_context() {
    let res = parse("pe.num_of_sections == 4");
    assert_eq!(res, Err(YariError::ParserError));
}

#[test]
fn test_empty() {
    let res = parse("");
    assert!(res.is_err());
}

#[test]
fn test_argument_tags() {
    assert_eq!(Argument::String("a".to_string()).to_str(), "s");
    assert_eq!(Argument::Regexp("a".to_string(), String::new()).to_str(), "r");
    assert_eq!(Argument::Integer(1).to_str(), "i");
    assert_eq!(Argument::Float("1.0".to_string()).to_char(), 'f');
    assert_eq!(Argument::Integer(1).to_char(), 'i');
}

#[test]
fn test_str_operation_try_from() {
    assert_eq!(StrOperation::try_from('$'), Ok(StrOperation::MatchesOnce));
    assert_eq!(StrOperation::try_from('#'), Ok(StrOperation::MatchesCount));
    assert_eq!(StrOperation::try_from('@'), Ok(StrOperation::MatchOffset));
    assert_eq!(StrOperation::try_from('!'), Ok(StrOperation::MatchLength));
    assert_eq!(StrOperation::try_from('x'), Err(()));
}

#[test]
fn test_get_module_of_expression() {
    let (_, e) = parse("time.now()").unwrap();
    assert_eq!(e.get_module(), Some(yari::module::Module::Time));
    let (_, e) = parse("pe.number_of_sections").unwrap();
    assert_eq!(e.get_module(), Some(yari::module::Module::Pe));
    let (_, e) = parse("invalid.now()").unwrap();
    assert_eq!(e.get_module(), None);
}

#[test]
fn test_parse_negative_integer_argument() {
    let res = parse("math.max(-3, 7)");
    assert_eq!(
        res,
        Ok((
            None,
            func("math.max", vec![Argument::Integer(-3), Argument::Integer(7)])
        ))
    );
}

#[test]
fn test_parse_overlong_integer_argument_falls_to_float() {
    let res = argument("99999999999999999999");
    assert_eq!(res, Ok(Argument::Float("99999999999999999999".to_string())));
}
