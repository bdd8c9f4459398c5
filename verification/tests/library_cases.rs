use conk::ast::attribute::ArgumentList;
use conk::ast::data_structures::declaration::parse_schema;
use conk::ast::data_structures::value::Value as FlatValue;
use conk::ast::data_structures::{parse_ast_from_file as flat_from_file, parse_ast_from_str};
use conk::ast::declaration::Declaration;
use conk::ast::pest::{ConkParser, Rule};
use conk::ast::value::Value;
use conk::parser::convert::{
    parse_ast_from_string, parse_identifier, parse_identifier_list, parse_schema_prefix,
    parse_string_literal,
};
use conk::parser::error::{Error, SemanticError};
use conk::text::{chars_to_string, push_chars, IntOverflow};

fn config_value(input: &str) -> Result<Value, Error> {
    let file = parse_ast_from_string(input)?;
    let mut config = file.config.unwrap();
    Ok(config.entries.remove(0).1)
}

#[test]
fn duplicate_argument_name_is_refused() {
    let result = parse_ast_from_string("config { a: f(x: 1, x: 2) }");
    match result {
        Err(Error::Semantic(SemanticError::DuplicateArgumentName(name))) => assert_eq!(name, "x"),
        other => panic!("Expected duplicate argument name, got {:?}", other),
    }
}

#[test]
fn distinct_argument_names_are_kept_in_order() {
    let v = config_value("config { a: f(1, x: 2, y: \"z\", 3) }").unwrap();
    let Value::FunctionCall { name, args } = v else { panic!() };
    assert_eq!(name, "f");
    assert_eq!(args.len(), 4);
    assert!(matches!(args.positional[0], Value::Integer(1)));
    assert!(matches!(args.positional[1], Value::Integer(3)));
    assert_eq!(args.named[0].name, "x");
    assert_eq!(args.named[1].name, "y");
}

#[test]
fn integer_bounds() {
    assert!(matches!(config_value("config { a: 9223372036854775807 }"), Ok(Value::Integer(i64::MAX))));
    assert!(matches!(config_value("config { a: -9223372036854775808 }"), Ok(Value::Integer(i64::MIN))));
    assert!(matches!(config_value("config { a: +0 }"), Ok(Value::Integer(0))));
    assert!(matches!(
        config_value("config { a: 9223372036854775808 }"),
        Err(Error::ParseInt(IntOverflow::PosOverflow))
    ));
    assert!(matches!(
        config_value("config { a: -9223372036854775809 }"),
        Err(Error::ParseInt(IntOverflow::NegOverflow))
    ));
}

#[test]
fn first_error_in_document_order_wins() {
    let input = "config { a: 99999999999999999999 }\nentity E { x Int x Int }";
    assert!(matches!(parse_ast_from_string(input), Err(Error::ParseInt(_))));
    let input = "entity E { x Int x Int }\nentity F { y Int(99999999999999999999) }";
    assert!(matches!(
        parse_ast_from_string(input),
        Err(Error::Semantic(SemanticError::DuplicateFieldName(_)))
    ));
    let input = "entity F { y Int(99999999999999999999) }\nentity E { x Int x Int }";
    assert!(matches!(parse_ast_from_string(input), Err(Error::ParseInt(_))));
}

#[test]
fn string_values_unescape_quotes_only() {
    let v = config_value(r#"config { a: "x\"y\\n" }"#).unwrap();
    assert!(matches!(v, Value::String(s) if s == "x\"y\\\\n"));
}

#[test]
fn float_text_is_kept_as_written() {
    let v = config_value("config { a: -0.50 }").unwrap();
    assert!(matches!(v, Value::Float(s) if s == "-0.50"));
}

#[test]
fn config_comes_first_and_once() {
    let file = parse_ast_from_string("config { b: 2 c: 3 } entity E { }").unwrap();
    let config = file.config.unwrap();
    assert_eq!(config.entries.len(), 2);
    assert!(config.get("a").is_none());
    assert!(matches!(config.get("c"), Some(Value::Integer(3))));
    assert!(matches!(parse_ast_from_string("entity E { } config { a: 1 }"), Err(Error::Parse(_))));
    assert!(matches!(parse_ast_from_string("config { a: 1 } config { b: 2 }"), Err(Error::Parse(_))));
}

#[test]
fn names_of_declarations() {
    let file = parse_ast_from_string("enum A { X } template B { } entity C { }").unwrap();
    let names: Vec<&String> = file.declarations.iter().map(|d| d.name()).collect();
    assert_eq!(names, vec!["A", "B", "C"]);
    assert!(matches!(file.declarations[1], Declaration::Template(_)));
}

#[test]
fn same_field_name_in_two_declarations_is_accepted() {
    assert!(parse_ast_from_string("template T { id Int } entity E : T { id Int }").is_ok());
}

#[test]
fn same_attribute_on_two_fields_is_accepted() {
    assert!(parse_ast_from_string("entity E { a Int @id b Int @id }").is_ok());
}

#[test]
fn schema_inheritance_is_recorded_as_written() {
    let file = parse_ast_from_string("entity U inherits (\"s\".Base, Other) { }").unwrap();
    let Declaration::Entity(e) = &file.declarations[0] else { panic!() };
    assert_eq!(e.inherits, vec!["\"s\".Base", "Other"]);
    let ast = parse_ast_from_str("entity U inherits (\"s\\\"q\".Base, Other) { }").unwrap();
    assert_eq!(ast.entity_declarations[0].inherits, vec!["\"s\"q\".Base", "Other"]);
}

#[test]
fn flat_reader_keeps_call_schema_quoted() {
    let ast = parse_ast_from_str("config { a: \"s\".f(1) }").unwrap();
    let entries = &ast.config.unwrap().entries;
    let FlatValue::FunctionCall { schema, name, arguments } = &entries[0].1 else { panic!() };
    assert_eq!(schema.as_deref(), Some("\"s\""));
    assert_eq!(name, "f");
    assert_eq!(arguments.len(), 1);
}

#[test]
fn flat_reader_keeps_duplicates() {
    let ast = parse_ast_from_str("config { a: 1 a: 2 } enum E { X X } entity E { f Int f Int }").unwrap();
    assert_eq!(ast.config.unwrap().entries.len(), 2);
    assert_eq!(ast.enum_declarations[0].values, vec!["X", "X"]);
    assert_eq!(ast.entity_declarations[0].fields.len(), 2);
}

#[test]
fn flat_reader_sorts_declarations_by_kind() {
    let ast = parse_ast_from_str("entity A { } enum B { X } entity C { } template D { }").unwrap();
    assert_eq!(ast.entity_declarations.len(), 2);
    assert_eq!(ast.entity_declarations[1].name, "C");
    assert_eq!(ast.enum_declarations[0].name, "B");
    assert_eq!(ast.template_declarations[0].name, "D");
}

#[test]
fn flat_reader_reports_overflow() {
    let r = parse_ast_from_str("entity E { x Int(99999999999999999999) }");
    assert!(matches!(r, Err(conk::ast::error::Error::ParseInt(IntOverflow::PosOverflow))));
}

#[test]
fn flat_reader_passes_on_read_errors() {
    let r = flat_from_file(Err(std::io::Error::new(std::io::ErrorKind::NotFound, "missing")));
    assert!(matches!(r, Err(conk::ast::error::Error::Io(_))));
    let r = flat_from_file(Ok("enum A { X }".to_string())).unwrap();
    assert_eq!(r.enum_declarations.len(), 1);
}

#[test]
fn readers_agree_on_syntax_errors() {
    for input in ["config {", "entity 1 { }", "enum A { }", "config { a: [1,,] }", "%"] {
        let a = parse_ast_from_string(input);
        let b = parse_ast_from_str(input);
        match (a, b) {
            (Err(Error::Parse(x)), Err(conk::ast::error::Error::Parse(y))) => assert_eq!(x, y),
            other => panic!("Expected two parse errors for {:?}, got {:?}", input, other),
        }
    }
}

#[test]
fn checked_reader_success_implies_flat_success() {
    let input = "config { a: [1, f(x: 2)] } \"s\" enum A { X @@d(1) } template T { f Int(3) @a(4) } entity E : T inherits (\"s\".B) { g Int }";
    let a = parse_ast_from_string(input).unwrap();
    let b = parse_ast_from_str(input).unwrap();
    assert_eq!(
        a.declarations.len(),
        b.enum_declarations.len() + b.template_declarations.len() + b.entity_declarations.len()
    );
    assert_eq!(a.config.unwrap().entries.len(), b.config.unwrap().entries.len());
}

#[test]
fn argument_list_len_and_emptiness() {
    let empty = ArgumentList::new();
    assert_eq!(empty.len(), 0);
    assert!(empty.is_empty());
    let v = config_value("config { a: f(y: 1) }").unwrap();
    let Value::FunctionCall { args, .. } = v else { panic!() };
    assert_eq!(args.len(), 1);
    assert!(!args.is_empty());
}

#[test]
fn node_texts_and_strings() {
    let chars: Vec<char> = "\"a\\\"b\"".chars().collect();
    let p = ConkParser::parse(Rule::string_literal, &chars).unwrap();
    assert_eq!(p.as_rule(), Rule::string_literal);
    assert_eq!((p.start(), p.end()), (0, chars.len()));
    assert!(p.inner().is_empty());
    assert_eq!(parse_string_literal(&chars, &p), "a\"b");
    assert_eq!(parse_identifier(&chars, &p), "\"a\\\"b\"");
    assert_eq!(parse_schema(&chars, &p), "a\"b");
}

#[test]
fn schema_prefix_and_identifier_lists() {
    let chars: Vec<char> = "\"db\" entity E : T1, T2 inherits (\"s\".B, C) { }".chars().collect();
    let p = ConkParser::parse(Rule::entity_declaration, &chars).unwrap();
    let prefix = &p.inner()[0];
    assert_eq!(prefix.as_rule(), Rule::schema_prefix);
    assert_eq!(parse_schema_prefix(&chars, prefix), "db");
    let usage = p.inner().iter().find(|c| c.as_rule() == Rule::template_usage).unwrap();
    assert_eq!(parse_identifier_list(&chars, &usage.inner()[0]), vec!["T1", "T2"]);
    let parents = p.inner().iter().find(|c| c.as_rule() == Rule::inheritance_usage).unwrap();
    assert_eq!(parse_identifier_list(&chars, &parents.inner()[0]), vec!["\"s\".B", "C"]);
}

#[test]
fn character_ranges_become_strings() {
    let chars: Vec<char> = "héllo".chars().collect();
    assert_eq!(chars_to_string(&chars, 1, 3), "él");
    assert_eq!(chars_to_string(&chars, 2, 2), "");
    let mut s = String::from("ab");
    push_chars(&mut s, "cd");
    assert_eq!(s, "abcd");
}

#[test]
fn nested_duplicate_argument_names_are_refused() {
    for input in [
        "config { a: [f(g(x: 1, x: 2))] }",
        "entity E { @@idx(a: 1, a: 2) }",
        "entity E { f Int @d(k(y: 1, y: 2)) }",
        "template T { f Int(h(z: 1, z: [2])) }",
    ] {
        match parse_ast_from_string(input) {
            Err(Error::Semantic(SemanticError::DuplicateArgumentName(_))) => {}
            other => panic!("Expected duplicate argument name for {:?}, got {:?}", input, other),
        }
    }
    assert!(parse_ast_from_string("config { a: f(x: g(x: 1)) }").is_ok());
}

#[test]
fn block_attribute_needs_parentheses_when_checked() {
    let input = "template T { @@something }";
    match parse_ast_from_string(input) {
        Err(Error::Parse(e)) => assert_eq!(e.offset, 24),
        other => panic!("Expected a parse error, got {:?}", other),
    }
    assert!(parse_ast_from_string("template T { @@something() }").is_ok());
    assert!(parse_ast_from_str(input).is_ok());
    let input = "entity E { x Int x Int } enum A { B @@doc }";
    assert!(matches!(parse_ast_from_string(input), Err(Error::Parse(_))));
}

#[test]
fn file_reader_reads_like_string_reader() {
    for text in [
        "config { val: 42 }",
        "entity E { x Int x Int }",
        "config { a: 9223372036854775808 }",
        "enum {",
        "template T { @@bare }",
    ] {
        let a = conk::parser::convert::parse_ast_from_file(Ok(text.to_string()));
        let b = parse_ast_from_string(text);
        assert_eq!(format!("{:?}", a), format!("{:?}", b));
    }
}

#[test]
fn first_repeated_name_is_reported() {
    match parse_ast_from_string("enum E { A B B A }") {
        Err(Error::Semantic(SemanticError::DuplicateEnumValue(v))) => assert_eq!(v, "B"),
        other => panic!("unexpected {:?}", other),
    }
    match config_value("config { a: f(x: 1, y: 2, y: 3, x: 4) }") {
        Err(Error::Semantic(SemanticError::DuplicateArgumentName(n))) => assert_eq!(n, "y"),
        other => panic!("unexpected {:?}", other),
    }
    match parse_ast_from_string("entity E { a Int @p @q @q @p }") {
        Err(Error::Semantic(SemanticError::DuplicateFieldAttribute { field, attribute })) => {
            assert_eq!((field.as_str(), attribute.as_str()), ("a", "q"))
        }
        other => panic!("unexpected {:?}", other),
    }
    match parse_ast_from_string("enum A { X } entity B { } template B { } enum A { Y }") {
        Err(Error::Semantic(SemanticError::DuplicateDeclarationName(n))) => assert_eq!(n, "B"),
        other => panic!("unexpected {:?}", other),
    }
}

#[test]
fn flat_reader_reports_first_failing_part() {
    let r = parse_ast_from_str("config { a: [1, -99999999999999999999, 99999999999999999999] }");
    assert!(matches!(r, Err(conk::ast::error::Error::ParseInt(IntOverflow::NegOverflow))));
    let r = parse_ast_from_str("config { a: f(x: 99999999999999999999, -99999999999999999999) }");
    assert!(matches!(r, Err(conk::ast::error::Error::ParseInt(IntOverflow::PosOverflow))));
}
