use yari::context::{CompiledRules, Context, ContextBuilder, Evaluation, ScanReport,
    YrMatch, YrRule, YrString};
use yari::error::YariError;
use yari::graph::{FunctionPrototype, YrGraph, YrNode};
use yari::module::Module;
use yari::value::YrValue;

fn add(nodes: &mut Vec<YrNode>, node: YrNode) -> usize {
    nodes.push(node);
    nodes.len() - 1
}

fn context_over(graph: Vec<YrNode>, roots: Vec<(Module, usize)>) -> Context {
    Context::new(YrGraph { nodes: graph }, roots, None, None)
}

fn value(r: Result<Evaluation, YariError>) -> Result<YrValue, YariError> {
    match r {
        Ok(Evaluation::Value(v)) => Ok(v),
        Ok(Evaluation::NeedsScan { .. }) => panic!("expected a direct value"),
        Err(e) => Err(e),
    }
}

fn after_scan(
    r: Result<Evaluation, YariError>,
    matching: &[&str],
    not_matching: &[&str],
) -> Result<YrValue, YariError> {
    match r {
        Ok(Evaluation::NeedsScan { rules: _, name }) => {
            let report = ScanReport {
                matching: matching.iter().map(|s| s.to_string()).collect(),
                not_matching: not_matching.iter().map(|s| s.to_string()).collect(),
            };
            report.resolve(&name)
        },
        Ok(Evaluation::Value(_)) => panic!("expected a fallback scan request"),
        Err(e) => Err(e),
    }
}

/// A rule set shaped like the engine reports it for the sample rule
/// source with strings `$s00` (one match at 1212, five bytes long) and
/// `$s01` (no match).
fn compiled_rules() -> CompiledRules {
    CompiledRules {
        rules: vec![
            YrRule { identifier: "PRIVATE".to_string(), strings: vec![] },
            YrRule {
                identifier: "r".to_string(),
                strings: vec![
                    YrString {
                        identifier: "s00".to_string(),
                        matches: vec![YrMatch { offset: 1212, length: 5 }],
                    },
                    YrString { identifier: "s01".to_string(), matches: vec![] },
                ],
            },
        ],
    }
}

fn rule_source() -> String {
    "import \"pe\"
private rule PRIVATE {
    condition:
        pe.number_of_sections == 4
}

rule r {
    strings:
        $s00 = \"Hello\"
        $s01 = \"this is a pretty unique string that should not be found in the provided sample\"
    condition:
        all of them and PRIVATE
}"
    .to_string()
}

/// A small `pe` module graph: scalar fields, a sections array, a
/// version-info dictionary, and an `imphash` overload whose return
/// node carries what the engine computed.
fn pe_graph(imphash: Option<&str>) -> (Vec<YrNode>, usize) {
    let mut g: Vec<YrNode> = Vec::new();
    let root = add(&mut g, YrNode::Integer(0));
    let nos = add(&mut g, YrNode::Integer(4));
    let sections = add(&mut g, YrNode::Integer(0));
    let mut section_ids: Vec<usize> = Vec::new();
    let names = [".text", ".rdata", ".data", ".rsrc"];
    let sizes = [4178i64, 1024, 512, 256];
    for k in 0..4 {
        let s = add(&mut g, YrNode::Integer(0));
        let name = add(&mut g, YrNode::String(Some(names[k].to_string())));
        let vs = add(&mut g, YrNode::Integer(sizes[k]));
        g[s] = YrNode::Structure(vec![
            ("name".to_string(), name),
            ("virtual_size".to_string(), vs),
        ]);
        section_ids.push(s);
    }
    g[sections] = YrNode::Array(section_ids);
    let imphash_fn = add(&mut g, YrNode::Integer(0));
    let imphash_ret = add(&mut g, YrNode::String(imphash.map(|s| s.to_string())));
    g[imphash_fn] = YrNode::Function(vec![FunctionPrototype {
        arguments_fmt: String::new(),
        return_obj: imphash_ret,
    }]);
    let no_seh = add(&mut g, YrNode::Integer(0x400));
    let dll = add(&mut g, YrNode::Integer(0x2000));
    g[root] = YrNode::Structure(vec![
        ("number_of_sections".to_string(), nos),
        ("sections".to_string(), sections),
        ("imphash".to_string(), imphash_fn),
        ("NO_SEH".to_string(), no_seh),
        ("DLL".to_string(), dll),
    ]);
    (g, root)
}

fn context_with_pe_sample_and_rule() -> Context {
    let (g, root) = pe_graph(Some("61be25042c4f886d1c1894cc5f14523c"));
    Context::new(
        YrGraph { nodes: g },
        vec![(Module::Pe, root)],
        Some(compiled_rules()),
        Some(rule_source()),
    )
}

#[test]
fn test_create_context() {
    let ctx = context_over(Vec::new(), Vec::new());
    assert_eq!(ctx.rule_string, None);
}

#[test]
fn test_math_max() {
    let mut g: Vec<YrNode> = Vec::new();
    let root = add(&mut g, YrNode::Integer(0));
    let max_fn = add(&mut g, YrNode::Integer(0));
    let max_ret = add(&mut g, YrNode::Integer(600));
    g[max_fn] = YrNode::Function(vec![FunctionPrototype {
        arguments_fmt: "ii".to_string(),
        return_obj: max_ret,
    }]);
    g[root] = YrNode::Structure(vec![("max".to_string(), max_fn)]);
    let mut context = context_over(g, vec![(Module::Math, root)]);

    let res = value(context.eval("math.max(123, 600)"));
    assert_eq!(res, Ok(YrValue::Integer(600)));
}

#[test]
fn test_math_mean() {
    let mut g: Vec<YrNode> = Vec::new();
    let root = add(&mut g, YrNode::Integer(0));
    let mean_fn = add(&mut g, YrNode::Integer(0));
    let mean_ret = add(&mut g, YrNode::Float(112.0f64.to_bits()));
    g[mean_fn] = YrNode::Function(vec![FunctionPrototype {
        arguments_fmt: "s".to_string(),
        return_obj: mean_ret,
    }]);
    g[root] = YrNode::Structure(vec![("mean".to_string(), mean_fn)]);
    let mut context = context_over(g, vec![(Module::Math, root)]);

    let res = value(context.eval("math.mean(\"test\")"));
    assert_eq!(res, Ok(YrValue::Float(112.0f64.to_bits())));
}

#[test]
fn test_math_mean_empty_string() {
    let mut g: Vec<YrNode> = Vec::new();
    let root = add(&mut g, YrNode::Integer(0));
    let mean_fn = add(&mut g, YrNode::Integer(0));
    let mean_ret = add(&mut g, YrNode::Float(f64::NAN.to_bits()));
    g[mean_fn] = YrNode::Function(vec![FunctionPrototype {
        arguments_fmt: "s".to_string(),
        return_obj: mean_ret,
    }]);
    g[root] = YrNode::Structure(vec![("mean".to_string(), mean_fn)]);
    let mut context = context_over(g, vec![(Module::Math, root)]);

    let res = value(context.eval("math.mean(\"\")"));
    assert!(matches!(res, Ok(YrValue::Float(val)) if f64::from_bits(val).is_nan()));
}

#[test]
fn test_elf_values() {
    let mut g: Vec<YrNode> = Vec::new();
    let root = add(&mut g, YrNode::Integer(0));
    let ep = add(&mut g, YrNode::Integer(0x1040));
    let nsec = add(&mut g, YrNode::Integer(0x1e));
    let nseg = add(&mut g, YrNode::Integer(0xd));
    g[root] = YrNode::Structure(vec![
        ("entry_point".to_string(), ep),
        ("number_of_sections".to_string(), nsec),
        ("number_of_segments".to_string(), nseg),
    ]);
    let mut context = context_over(g, vec![(Module::Elf, root)]);

    let res = value(context.eval("elf.entry_point"));
    assert_eq!(res, Ok(YrValue::Integer(0x1040)));

    let res = value(context.eval("elf.number_of_sections"));
    assert_eq!(res, Ok(YrValue::Integer(0x1e)));

    let res = value(context.eval("elf.number_of_segments"));
    assert_eq!(res, Ok(YrValue::Integer(0xd)));
}

#[test]
fn test_pe_imphash() {
    let mut context = context_with_pe_sample_and_rule();
    let res = value(context.eval("pe.imphash()"));
    assert_eq!(
        res,
        Ok(YrValue::String(Some("61be25042c4f886d1c1894cc5f14523c".to_string())))
    );
}

#[test]
fn test_pe_imphash_without_sample() {
    let (g, root) = pe_graph(None);
    let mut context = context_over(g, vec![(Module::Pe, root)]);
    let res = value(context.eval("pe.imphash()"));
    assert_eq!(res, Ok(YrValue::String(None)));
}

#[test]
fn test_yara_ascii_escaped_string() {
    let mut g: Vec<YrNode> = Vec::new();
    let root = add(&mut g, YrNode::Integer(0));
    let rich = add(&mut g, YrNode::Integer(0));
    let clear = add(
        &mut g,
        YrNode::String(Some(
            "DanS\\x00\\x00\\x00\\x00V\\x1f\\x13\\x00%\\x00\\x00\\x00".to_string(),
        )),
    );
    g[rich] = YrNode::Structure(vec![("clear_data".to_string(), clear)]);
    g[root] = YrNode::Structure(vec![("rich_signature".to_string(), rich)]);
    let mut context = context_over(g, vec![(Module::Pe, root)]);
    let res = value(context.eval("pe.rich_signature.clear_data"));
    assert_eq!(
        res,
        Ok(YrValue::String(Some(
            "DanS\\x00\\x00\\x00\\x00V\\x1f\\x13\\x00%\\x00\\x00\\x00".to_string(),
        )))
    );
}

#[test]
fn tests_eval_test_string_match() {
    let mut context = context_with_pe_sample_and_rule();

    let res = value(context.eval("r|$s00"));
    assert_eq!(res, Ok(YrValue::Integer(1)));

    let res = value(context.eval("r|$s01"));
    assert_eq!(res, Ok(YrValue::Integer(0)));
}

#[test]
fn test_string_count_matches() {
    let mut context = context_with_pe_sample_and_rule();
    let res = value(context.eval("r|#s00"));
    assert_eq!(res, Ok(YrValue::Integer(1)));
}

#[test]
fn test_string_count_matches_without_rule() {
    let mut context = context_over(Vec::new(), Vec::new());
    let res = value(context.eval("r|#s00"));
    assert_eq!(res, Err(YariError::RuleMissingError));
}

#[test]
fn tests_eval_test_string_match_offset() {
    let mut context = context_with_pe_sample_and_rule();
    let res = value(context.eval("r|@s00[1]"));
    assert_eq!(res, Ok(YrValue::Integer(1212)));

    let res = value(context.eval("@s00[0]"));
    assert!(matches!(res, Err(YariError::ParserError)));
}

#[test]
fn tests_eval_test_string_match_length() {
    let mut context = context_with_pe_sample_and_rule();
    let res = value(context.eval("r|!s00[1]"));
    assert_eq!(res, Ok(YrValue::Integer(5)));
}

#[test]
fn test_string_index_out_of_bounds() {
    let mut context = context_with_pe_sample_and_rule();
    let res = value(context.eval("r|!s00[2]"));
    assert_eq!(res, Err(YariError::IndexOutOfBounds));
}

#[test]
fn test_common_values() {
    let mut ge: Vec<YrNode> = Vec::new();
    let elf_root = add(&mut ge, YrNode::Integer(0));
    let et_none = add(&mut ge, YrNode::Integer(0));
    let em_arm = add(&mut ge, YrNode::Integer(0x28));
    ge[elf_root] = YrNode::Structure(vec![
        ("ET_NONE".to_string(), et_none),
        ("EM_ARM".to_string(), em_arm),
    ]);
    let pe_root = add(&mut ge, YrNode::Integer(0));
    let no_seh = add(&mut ge, YrNode::Integer(0x400));
    let dll = add(&mut ge, YrNode::Integer(0x2000));
    ge[pe_root] = YrNode::Structure(vec![
        ("NO_SEH".to_string(), no_seh),
        ("DLL".to_string(), dll),
    ]);
    let mut context = context_over(ge, vec![(Module::Elf, elf_root), (Module::Pe, pe_root)]);

    let res = value(context.eval("elf.ET_NONE")).unwrap();
    assert_eq!(res, YrValue::Integer(0));

    let res = value(context.eval("elf.EM_ARM")).unwrap();
    assert_eq!(res, YrValue::Integer(0x28));

    let res = value(context.eval("pe.NO_SEH")).unwrap();
    assert_eq!(res, YrValue::Integer(0x400));

    let res = value(context.eval("pe.DLL")).unwrap();
    assert_eq!(res, YrValue::Integer(0x2000));
}

#[test]
fn test_invalid_symbol_as_function() {
    let mut g: Vec<YrNode> = Vec::new();
    let root = add(&mut g, YrNode::Structure(Vec::new()));
    let mut context = context_over(g, vec![(Module::Hash, root)]);

    let res = value(context.eval("hash()"));
    assert_eq!(res, Err(YariError::SymbolNotFound("hash".to_string())));
}

#[test]
fn test_invalid_symbol() {
    let mut g: Vec<YrNode> = Vec::new();
    let root = add(&mut g, YrNode::Integer(0));
    let now_fn = add(&mut g, YrNode::Integer(0));
    let now_ret = add(&mut g, YrNode::Integer(1234567890));
    g[now_fn] = YrNode::Function(vec![FunctionPrototype {
        arguments_fmt: String::new(),
        return_obj: now_ret,
    }]);
    g[root] = YrNode::Structure(vec![("now".to_string(), now_fn)]);
    let mut context = context_over(g, vec![(Module::Time, root)]);

    let res = value(context.eval("time.then()"));
    assert_eq!(res, Err(YariError::SymbolNotFound("time.then".to_string())));
}

#[test]
fn test_invalid_access_to_array() {
    let (g, root) = pe_graph(None);
    let mut context = context_over(g, vec![(Module::Pe, root)]);

    let res = value(context.eval("pe.resources.type_string"));
    assert_eq!(
        res,
        Err(YariError::SymbolNotFound("pe.resources.type_string".to_string()))
    );
}

#[test]
fn test_array_access() {
    let mut context = context_with_pe_sample_and_rule();
    let res = value(context.eval("pe.sections[0].virtual_size"));
    assert_eq!(res, Ok(YrValue::Integer(4178)));
}

fn structure_get<'a>(s: &'a [(String, YrValue)], key: &str) -> Option<&'a YrValue> {
    s.iter().find(|p| p.0 == key).map(|p| &p.1)
}

#[test]
fn test_array() {
    let mut context = context_with_pe_sample_and_rule();
    let res = value(context.eval("pe.sections")).unwrap();

    let array = if let YrValue::Array(a) = res {
        assert_eq!(a.len(), 4);
        a
    } else {
        panic!("Expected `Array`");
    };

    for (idx, structure) in array.iter().enumerate() {
        let query = format!("pe.sections[{}].name", idx);
        let yara_section_name = value(context.eval(&query)).unwrap();
        if let YrValue::Structure(Some(s1)) = structure {
            assert_eq!(*structure_get(s1, "name").unwrap(), yara_section_name);
        } else {
            panic!("Expected `Structure(Some())`")
        }
    }
}

fn pe_version_info_graph() -> (Vec<YrNode>, usize) {
    let mut g: Vec<YrNode> = Vec::new();
    let root = add(&mut g, YrNode::Integer(0));
    let vi = add(&mut g, YrNode::Integer(0));
    let entries = [
        ("Comments", ""),
        ("CompanyName", ""),
        ("FileDescription", "Demo MFC Application"),
        ("FileVersion", "2, 0, 0, 0"),
        ("InternalName", "Demo"),
        ("LegalCopyright", "Copyright (C) 2004"),
        ("LegalTrademarks", ""),
        ("OriginalFilename", "Demo.EXE"),
        ("PrivateBuild", ""),
        ("ProductName", "Demo Application"),
        ("ProductVersion", "2, 0, 0, 0"),
        ("SpecialBuild", ""),
    ];
    let mut pairs: Vec<(String, usize)> = Vec::new();
    for (k, v) in entries.iter() {
        let node = add(&mut g, YrNode::String(Some(v.to_string())));
        pairs.push((k.to_string(), node));
    }
    g[vi] = YrNode::Dictionary(pairs);
    g[root] = YrNode::Structure(vec![("version_info".to_string(), vi)]);
    (g, root)
}

#[test]
fn test_dictionary_access() {
    let (g, root) = pe_version_info_graph();
    let mut context = context_over(g, vec![(Module::Pe, root)]);
    let res = value(context.eval("pe.version_info[\"OriginalFilename\"]"));
    assert_eq!(res, Ok(YrValue::String(Some("Demo.EXE".to_string()))));
}

#[test]
fn test_dictionary() {
    let (g, root) = pe_version_info_graph();
    let mut context = context_over(g, vec![(Module::Pe, root)]);
    let res = value(context.eval("pe.version_info")).unwrap();

    match res {
        YrValue::Dictionary(res_map) => {
            assert_eq!(
                *structure_get(&res_map, "OriginalFilename").unwrap(),
                YrValue::String(Some("Demo.EXE".to_string()))
            );
            assert_eq!(
                *structure_get(&res_map, "FileVersion").unwrap(),
                YrValue::String(Some("2, 0, 0, 0".to_string()))
            );
            assert_eq!(
                *structure_get(&res_map, "CompanyName").unwrap(),
                YrValue::String(Some("".to_string()))
            );
            assert_eq!(
                *structure_get(&res_map, "FileDescription").unwrap(),
                YrValue::String(Some("Demo MFC Application".to_string()))
            );
            assert_eq!(
                *structure_get(&res_map, "ProductName").unwrap(),
                YrValue::String(Some("Demo Application".to_string()))
            );
            assert_eq!(
                *structure_get(&res_map, "LegalCopyright").unwrap(),
                YrValue::String(Some("Copyright (C) 2004".to_string()))
            );

            assert_eq!(res_map.len(), 12)
        },
        _ => {
            panic!("Expected `Dictionary` from eval");
        },
    }
}

#[test]
fn test_invalid_dictionary_access() {
    let (g, root) = pe_version_info_graph();
    let mut context = context_over(g, vec![(Module::Pe, root)]);
    let res = value(context.eval("pe.version_info[\"InvalidKey\"]"));
    assert_eq!(
        res,
        Err(YariError::SymbolNotFound("pe.version_info[\"InvalidKey\"]".to_string()))
    );
}

#[test]
fn test_invalid_arguments_to_function() {
    let (g, root) = pe_graph(None);
    let mut context = context_over(g, vec![(Module::Pe, root)]);

    let res = value(context.eval("pe.imphash(0)"));
    assert_eq!(res, Err(YariError::SymbolNotFound("pe.imphash".to_string())));
}

#[test]
fn tests_eval_test_value_with_context() {
    let mut context = context_with_pe_sample_and_rule();
    let res = value(context.eval("r|pe.number_of_sections")).unwrap();
    assert_eq!(res, YrValue::Integer(4));
}

#[test]
fn test_public_rule() {
    let mut context = context_with_pe_sample_and_rule();
    // The bare rule name needs a scan; the engine reports `r` as not
    // matching the sample.
    let res = after_scan(context.eval("r"), &["PRIVATE"], &["r"]).unwrap();
    assert_eq!(res, YrValue::Integer(0));
}

#[test]
fn test_private_rule_with_context() {
    let mut context = context_with_pe_sample_and_rule();
    // `PRIVATE` is no cached path, so the condition of `r` is rewritten
    // to `(PRIVATE)`; the engine's scan then reports `r` as matching.
    let res = after_scan(context.eval("r|PRIVATE"), &["PRIVATE", "r"], &[]).unwrap();
    assert_eq!(res, YrValue::Integer(1));
}

#[test]
fn test_complex_value_with_context() {
    let mut context = context_with_pe_sample_and_rule();
    let res = after_scan(
        context.eval("r|pe.number_of_sections == 4"),
        &["PRIVATE", "r"],
        &[],
    )
    .unwrap();
    assert_eq!(res, YrValue::Integer(1));
}

#[test]
fn test_invalid_rule_context() {
    let mut context = context_with_pe_sample_and_rule();
    let res = value(context.eval("invalid_rule|$str"));
    assert_eq!(res, Err(YariError::RuleMissingError));
}

#[test]
fn test_invalid_complex_value() {
    let mut context = context_with_pe_sample_and_rule();
    // The synthesized rule does not compile, so the scan reports no
    // rule at all.
    let res = after_scan(context.eval("r|this is not valid"), &[], &[]);
    assert_eq!(res, Err(YariError::SymbolNotFound("r".to_string())));
}

#[test]
fn test_invalid_data() {
    let val = ContextBuilder::parse_module_data_str("test_no_equals");
    assert_eq!(val, None);
    let val = ContextBuilder::parse_module_data_str("cuckoo=too_many=equals");
    assert_eq!(val, None);
}

#[test]
fn test_eval_filesize() {
    let mut context = context_with_pe_sample_and_rule();
    // Each condition goes out to the engine; the report mirrors what a
    // scan of the 8704-byte sample answers.
    assert_eq!(
        after_scan(context.eval("r|filesize == 8704"), &["r"], &[]).unwrap(),
        YrValue::Integer(1)
    );
    assert_eq!(
        after_scan(context.eval("r|filesize == 0"), &[], &["r"]).unwrap(),
        YrValue::Integer(0)
    );
    assert_eq!(
        after_scan(context.eval("r|filesize == 0x2200"), &["r"], &[]).unwrap(),
        YrValue::Integer(1)
    );
    assert_eq!(
        after_scan(context.eval("r|filesize != 0"), &["r"], &[]).unwrap(),
        YrValue::Integer(1)
    );
    assert_eq!(
        after_scan(context.eval("r|filesize <= 0x10000"), &["r"], &[]).unwrap(),
        YrValue::Integer(1)
    );
    assert_eq!(
        after_scan(context.eval("r|filesize > 0"), &["r"], &[]).unwrap(),
        YrValue::Integer(1)
    );
}

#[test]
fn test_eval_entrypoint() {
    let mut context = context_with_pe_sample_and_rule();
    assert_eq!(
        after_scan(context.eval("r|entrypoint == 2166"), &["r"], &[]).unwrap(),
        YrValue::Integer(1)
    );
    assert_eq!(
        after_scan(context.eval("r|entrypoint == 0"), &[], &["r"]).unwrap(),
        YrValue::Integer(0)
    );
    assert_eq!(
        after_scan(context.eval("r|entrypoint == 0x876"), &["r"], &[]).unwrap(),
        YrValue::Integer(1)
    );
    assert_eq!(
        after_scan(context.eval("r|entrypoint != 0"), &["r"], &[]).unwrap(),
        YrValue::Integer(1)
    );
    assert_eq!(
        after_scan(context.eval("r|entrypoint <= 0x10000"), &["r"], &[]).unwrap(),
        YrValue::Integer(1)
    );
    assert_eq!(
        after_scan(context.eval("r|entrypoint > 0"), &["r"], &[]).unwrap(),
        YrValue::Integer(1)
    );

    let mut context = context_with_pe_sample_and_rule();
    assert_eq!(
        after_scan(context.eval("r|entrypoint == 4160"), &["r"], &[]).unwrap(),
        YrValue::Integer(1)
    );
}

#[test]
fn test_eval_integer_postfix() {
    let mut context = context_with_pe_sample_and_rule();
    assert_eq!(
        after_scan(context.eval("r|filesize <= 10KB"), &["r"], &[]).unwrap(),
        YrValue::Integer(1)
    );
    assert_eq!(
        after_scan(context.eval("r|filesize >= 10KB"), &[], &["r"]).unwrap(),
        YrValue::Integer(0)
    );
    assert_eq!(
        after_scan(context.eval("r|filesize <= 1MB"), &["r"], &[]).unwrap(),
        YrValue::Integer(1)
    );
    assert_eq!(
        after_scan(context.eval("r|filesize > 1MB"), &[], &["r"]).unwrap(),
        YrValue::Integer(0)
    );
    assert_eq!(
        after_scan(context.eval("r|filesize == 123MB"), &[], &["r"]).unwrap(),
        YrValue::Integer(0)
    );
    assert_eq!(
        after_scan(context.eval("r|filesize > 0MB"), &["r"], &[]).unwrap(),
        YrValue::Integer(1)
    );
}

#[test]
fn test_rewritten_rules_reach_the_engine() {
    let mut context = Context::new(
        YrGraph { nodes: Vec::new() },
        Vec::new(),
        Some(CompiledRules {
            rules: vec![YrRule { identifier: "test".to_string(), strings: vec![] }],
        }),
        Some("rule test { condition: true }".to_string()),
    );
    match context.eval("test|filesize > 2").unwrap() {
        Evaluation::NeedsScan { rules, name } => {
            assert_eq!(rules, "rule test { condition: (filesize > 2) }\n");
            assert_eq!(name, "test");
        },
        Evaluation::Value(_) => panic!("expected a fallback scan request"),
    }
}
