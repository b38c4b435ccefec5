use yari::context::{Context, ContextBuilder, Evaluation};
use yari::error::YariError;
use yari::graph::{object_type_to_string, YrGraph};
use yari::module::{modules, Module};
use yari::value::{YrValue, YR_UNDEFINED};

#[test]
fn test_undefined_sentinel_bits() {
    assert_eq!(YR_UNDEFINED as u64, 0xFFFABADAFABADAFF);
}

#[test]
fn test_is_undefined() {
    assert!(!YrValue::Integer(1).is_undefined());
    assert!(!YrValue::Integer(0).is_undefined());
    assert!(YrValue::Integer(YR_UNDEFINED).is_undefined());

    assert!(!YrValue::Float(1.234f64.to_bits()).is_undefined());
    assert!(!YrValue::Float(0.0f64.to_bits()).is_undefined());
    assert!(YrValue::Float(f64::NAN.to_bits()).is_undefined());

    assert!(!YrValue::String(Some("not empty".to_string())).is_undefined());
    assert!(!YrValue::String(Some("".to_string())).is_undefined());
    assert!(YrValue::String(None).is_undefined());

    assert!(!YrValue::Dictionary(Vec::new()).is_undefined());
    assert!(!YrValue::Array(Vec::new()).is_undefined());

    assert!(!YrValue::Structure(Some(Vec::new())).is_undefined());
    assert!(YrValue::Structure(None).is_undefined());
}

#[test]
fn test_bool_coercion() {
    assert_eq!(YrValue::Integer(1).as_bool(), Ok(true));
    assert_eq!(YrValue::Integer(0).as_bool(), Ok(false));
    assert_eq!(YrValue::Integer(YR_UNDEFINED).as_bool(), Ok(false));

    assert_eq!(YrValue::Float(1.1f64.to_bits()).as_bool(), Ok(true));
    assert_eq!(YrValue::Float(0.0f64.to_bits()).as_bool(), Ok(false));
    assert_eq!(YrValue::Float((-0.0f64).to_bits()).as_bool(), Ok(false));
    assert_eq!(YrValue::Float(f64::NAN.to_bits()).as_bool(), Ok(false));

    assert_eq!(YrValue::String(Some("not empty".to_string())).as_bool(), Ok(true));
    assert_eq!(YrValue::String(Some("".to_string())).as_bool(), Ok(false));
    assert_eq!(YrValue::String(None).as_bool(), Ok(false));

    assert_eq!(
        YrValue::Dictionary(Vec::new()).as_bool(),
        Err(YariError::BoolConversionError)
    );
    assert_eq!(YrValue::Array(Vec::new()).as_bool(), Err(YariError::BoolConversionError));

    assert_eq!(YrValue::Structure(None).as_bool(), Ok(false));
    assert_eq!(YrValue::Structure(Some(Vec::new())).as_bool(), Ok(true));
}

#[test]
fn test_module_from_str() {
    assert_eq!(Module::from_str("cuckoo"), Ok(Module::Cuckoo));
    assert_eq!(Module::from_str("time"), Ok(Module::Time));
    assert_eq!(Module::from_str("TIME"), Ok(Module::Time));
    assert_eq!(Module::from_str(""), Err(YariError::UnknownModule("".to_string())));
    assert_eq!(
        Module::from_str("unknown"),
        Err(YariError::UnknownModule("unknown".to_string()))
    );
}

#[test]
fn test_module_names() {
    assert_eq!(Module::Pe.as_ref(), "pe");
    assert_eq!(Module::Cuckoo.as_ref(), "cuckoo");
    let all = modules();
    assert_eq!(all.len(), 8);
    for m in all.iter() {
        assert_eq!(Module::from_str(m.as_ref()), Ok(*m));
    }
}

#[test]
fn test_object_type_names() {
    assert_eq!(object_type_to_string(1), "integer");
    assert_eq!(object_type_to_string(2), "string");
    assert_eq!(object_type_to_string(3), "structure");
    assert_eq!(object_type_to_string(4), "array");
    assert_eq!(object_type_to_string(5), "function");
    assert_eq!(object_type_to_string(6), "dictionary");
    assert_eq!(object_type_to_string(7), "float");
    assert_eq!(object_type_to_string(8), "reference");
}

#[test]
fn test_error_messages() {
    assert_eq!(YariError::ParserError.message(), "cannot parse the expression");
    assert_eq!(
        YariError::SymbolNotFound("pe.foo".to_string()).message(),
        "cannot find symbol 'pe.foo'"
    );
    assert_eq!(
        YariError::RuleMissingError.message(),
        "cannot evaluate expression because of missing rule context"
    );
    assert_eq!(YariError::IndexOutOfBounds.message(), "index out of bounds");
    assert_eq!(
        YariError::BoolConversionError.message(),
        "this type cannot be used as bool"
    );
}

#[test]
fn test_eval_unknown_module_path() {
    let mut context = Context::new(YrGraph { nodes: Vec::new() }, Vec::new(), None, None);
    let res = context.eval("invalid.now()");
    assert_eq!(res, Err(YariError::SymbolNotFound("invalid.now".to_string())));
}

#[test]
fn test_eval_complex_without_rules_is_missing_context() {
    let mut context = Context::new(YrGraph { nodes: Vec::new() }, Vec::new(), None, None);
    let res = context.eval("r|filesize > 2");
    assert_eq!(res, Err(YariError::RuleMissingError));
}

#[test]
fn test_eval_parse_error_surfaces() {
    let mut context = Context::new(YrGraph { nodes: Vec::new() }, Vec::new(), None, None);
    assert_eq!(context.eval("a..b"), Err(YariError::ParserError));
    assert_eq!(context.eval(".a.b"), Err(YariError::ParserError));
    assert_eq!(context.eval("a.b."), Err(YariError::ParserError));
}

#[test]
fn test_builder_configuration() {
    let b = ContextBuilder::new()
        .with_rule_string(Some("rule t { condition: true }".to_string()))
        .with_sample(Some("sample.bin".to_string()))
        .with_module_data(Module::Cuckoo, "report.json".to_string())
        .with_module_data(Module::Cuckoo, "report2.json".to_string());
    assert_eq!(b.rule_string, Some("rule t { condition: true }".to_string()));
    assert_eq!(b.sample, Some("sample.bin".to_string()));
    assert_eq!(b.module_data, vec![(Module::Cuckoo, "report2.json".to_string())]);
}

#[test]
fn test_builder_parse_module_data() {
    assert_eq!(
        ContextBuilder::parse_module_data_str("cuckoo=report.json"),
        Some((Module::Cuckoo, "report.json".to_string()))
    );
    assert_eq!(ContextBuilder::parse_module_data_str("nosuch=x"), None);
}

#[test]
fn test_needs_scan_carries_rule_source() {
    let mut context = Context::new(
        YrGraph { nodes: Vec::new() },
        Vec::new(),
        None,
        Some("rule z { condition: true }".to_string()),
    );
    match context.eval("z").unwrap() {
        Evaluation::NeedsScan { rules, name } => {
            assert_eq!(rules, "rule z { condition: true }");
            assert_eq!(name, "z");
        },
        Evaluation::Value(_) => panic!("expected a fallback scan request"),
    }
}
