use conk::ast::data_structures::attribute::{parse_attribute, AttributeLike, BlockAttribute, FieldAttribute};
use conk::ast::data_structures::declaration::{
    parse_entity_declaration, parse_enum_declaration, parse_template_declaration,
    EntityDeclaration, EnumDeclaration, TemplateDeclaration,
};
use conk::ast::data_structures::field::{parse_field, parse_field_type, Field, FieldType};
use conk::ast::data_structures::parse_ast_from_str;
use conk::ast::error::Error;
use conk::ast::pest::{ConkParser, ParseError, Rule};
use conk::grammar::tree::Pair;

fn parse_whole(rule: Rule, input: &str) -> Result<(Vec<char>, Pair), Error> {
    let chars: Vec<char> = input.chars().collect();
    let pair = ConkParser::parse(rule, &chars).map_err(Error::Parse)?;
    if pair.end() != chars.len() {
        return Err(Error::Parse(ParseError { offset: pair.end() }));
    }
    Ok((chars, pair))
}

fn parse_attr_str<T: AttributeLike>(rule: Rule, input: &str) -> Result<T, Error> {
    let (chars, pair) = parse_whole(rule, input)?;
    parse_attribute::<T>(&chars, &pair)
}

fn parse_field_str(input: &str) -> Result<Field, Error> {
    let (chars, pair) = parse_whole(Rule::field, input)?;
    parse_field(&chars, &pair)
}

fn parse_field_type_str(input: &str) -> Result<FieldType, Error> {
    let (chars, pair) = parse_whole(Rule::field_type, input)?;
    parse_field_type(&chars, &pair)
}

fn parse_enum_str(input: &str) -> Result<EnumDeclaration, Error> {
    let (chars, pair) = parse_whole(Rule::enum_declaration, input)?;
    parse_enum_declaration(&chars, &pair)
}

fn parse_template_str(input: &str) -> Result<TemplateDeclaration, Error> {
    let (chars, pair) = parse_whole(Rule::template_declaration, input)?;
    parse_template_declaration(&chars, &pair)
}

fn parse_entity_str(input: &str) -> Result<EntityDeclaration, Error> {
    let (chars, pair) = parse_whole(Rule::entity_declaration, input)?;
    parse_entity_declaration(&chars, &pair)
}

#[test]
fn field_attribute_cases() {
    let ok = ["@a", "@a()", "@a(1)", "@a(1,2)", "@a(x:1)", "@a(1,x:2)"];
    let err = ["@@a", "a()", "@a((2)", "@a(1,2))"];

    for input in ok {
        let res = parse_attr_str::<FieldAttribute>(Rule::field_attribute, input);
        assert!(res.is_ok(), "Expected Ok got Err on {:?}", input);
    }

    for input in err {
        let res = parse_attr_str::<FieldAttribute>(Rule::field_attribute, input);
        assert!(res.is_err(), "Expected Err got Ok on {:?}", input)
    }
}

#[test]
fn block_attribute_cases() {
    let ok = ["@@a", "@@a()", "@@a(1)", "@@a(x:1)", "@@a(1,x:2,)"];
    let err = ["@@", "@@a(", "@@1", "@a())"];

    for input in ok {
        let res = parse_attr_str::<BlockAttribute>(Rule::block_attribute, input);
        assert!(res.is_ok(), "Expected Ok got Err on {:?}", input);
    }

    for input in err {
        let res = parse_attr_str::<BlockAttribute>(Rule::block_attribute, input);
        assert!(res.is_err(), "Expected Err got Ok on {:?}", input)
    }
}

#[test]
fn attribute_structure() {
    let attr = parse_attr_str::<FieldAttribute>(Rule::field_attribute, "@test(1, x:2)").unwrap();

    assert_eq!(attr.name, "test");
    assert_eq!(attr.arguments.len(), 2);
}

#[test]
fn field_type_cases() {
    let ok = ["String", "\"schema\".String", "String()", "String(10)", "String(10, 20)", "String(1,)"];

    let err = ["", "123", "\"schema\".", "String(", "String)", "String(1 2)"];

    for input in ok {
        let res = parse_field_type_str(input);
        assert!(res.is_ok(), "Expected Ok for {:?}, got Err: {:?}", input, res);
    }

    for input in err {
        let res = parse_field_type_str(input);
        assert!(res.is_err(), "Expected Err for {:?}, got Ok: {:?}", input, res);
    }
}

#[test]
fn field_cases() {
    let ok = ["id String", "id String @unique", "id String(10) @unique @default(1)"];

    let err = [
        "",
        "id",
        "id String @",
        "1id String",
        "id \"schema\".",
        "id String(1",
        "id String() @",
    ];

    for input in ok {
        let res = parse_field_str(input);
        assert!(res.is_ok(), "Expected Ok for {:?}, got Err: {:?}", input, res);
    }

    for input in err {
        let res = parse_field_str(input);
        assert!(res.is_err(), "Expected Err for {:?}, got Ok: {:?}", input, res);
    }
}

#[test]
fn field_structure() {
    let f = parse_field_str("id String(10) @unique").unwrap();
    assert_eq!(f.name, "id");
    assert_eq!(f.field_type.name, "String");
    assert_eq!(f.field_type.parameters.len(), 1);
    assert_eq!(f.field_attributes.len(), 1);
}

#[test]
fn enum_cases() {
    let ok = [
        "enum Color { RED GREEN BLUE }",
        "\"db\" enum Status { @@comment(\"x\") ACTIVE INACTIVE }",
    ];

    let err = [
        "enum Color",
        "enum Color {}",
        "enum { RED }",
        "\"db\".enum Color { RED }",
        "enum Color { RED GREEN, }",
        "enum Color { RED, GREEN }",
        "enum Color { @@doc RED @invalid }",
    ];

    for input in ok {
        let res = parse_enum_str(input);
        assert!(res.is_ok(), "Expected Ok for {:?}, got Err: {:?}", input, res);
    }

    for input in err {
        let res = parse_enum_str(input);
        assert!(res.is_err(), "Expected Err for {:?}, got Ok: {:?}", input, res);
    }
}

#[test]
fn enum_structure() {
    let e = parse_enum_str("\"db\" enum Color { @@doc(\"hi\") RED GREEN }").unwrap();
    assert_eq!(e.schema.unwrap(), "db");
    assert_eq!(e.name, "Color");
    assert_eq!(e.values, vec!["RED", "GREEN"]);
    assert_eq!(e.block_attributes.len(), 1);
}

#[test]
fn template_cases() {
    let ok = [
        "template Timestampable { created_at DateTime @@index(created_at) }",
        "template TestingMoreTemplates { @@something }",
    ];

    let err = [
        "template T",
        "template { id String }",
        "template T ( id String )",
        "template T { id String, }",
        "template T { @@doc(\"hi\") @invalid }",
    ];

    for input in ok {
        let res = parse_template_str(input);
        assert!(res.is_ok(), "Expected Ok for {:?}, got Err: {:?}", input, res);
    }

    for input in err {
        let res = parse_template_str(input);
        assert!(res.is_err(), "Expected Err for {:?}, got Ok: {:?}", input, res);
    }
}

#[test]
fn template_structure() {
    let t = parse_template_str("template Timestampable { created_at DateTime }").unwrap();
    assert_eq!(t.name, "Timestampable");
    assert_eq!(t.fields.len(), 1);
    assert_eq!(t.fields[0].name, "created_at");
}

#[test]
fn entity_cases() {
    let ok = [
        "entity User { id String }",
        "\"public\" entity User { id String }",
        "entity User : Timestampable {}",
        "entity User : T1, T2 {}",
        "entity User inherits (Base) {}",
        "entity User inherits (\"schema\".Base) {}",
        "entity Admin : Timestampable inherits (User) { role String }",
        "entity E : T1, { id String }",
    ];

    let err = [
        "entity E",
        "\"db\".entity E { id String }",
        "entity { id String }",
        "entity E : { id String }",
        "entity E inherits { id String }",
    ];

    for input in ok {
        let res = parse_entity_str(input);
        assert!(res.is_ok(), "Expected Ok for {:?}, got Err: {:?}", input, res);
    }

    for input in err {
        let res = parse_entity_str(input);
        assert!(res.is_err(), "Expected Err for {:?}, got Ok: {:?}", input, res);
    }
}

#[test]
fn entity_structure() {
    let e = parse_entity_str("entity User : Timestampable inherits (Person) { id String }").unwrap();
    assert_eq!(e.name, "User");
    assert_eq!(e.templates, vec!["Timestampable"]);
    assert_eq!(e.inherits, vec!["Person"]);
    assert_eq!(e.fields.len(), 1);
    assert_eq!(e.fields[0].name, "id");
}

#[test]
fn file_structure() {
    let input = r#"
        config {
            a: 1
        }
        enum Status { ACTIVE }
        template T { id String }
        entity E { id String }
    "#;

    let ast = parse_ast_from_str(input).unwrap();

    assert!(ast.config.is_some());
    assert_eq!(ast.enum_declarations.len(), 1);
    assert_eq!(ast.template_declarations.len(), 1);
    assert_eq!(ast.entity_declarations.len(), 1);
}

#[test]
fn file_cases() {
    let ok = [
        r#"
        config {
            a: 1
        }
        enum Status { ACTIVE }
        template T { id String }
        entity E { id String }
    "#,
        "entity Empty {}",
    ];

    let err = [
        "config { a: 1 } invalid_decl {}",
        "config { a: 1",
        "config { a: }",
        "enum A { @@ }",
        "entity E : { }",
    ];

    for input in ok {
        let chars: Vec<char> = input.chars().collect();
        let parse_res = ConkParser::parse(Rule::file, &chars);
        assert!(parse_res.is_ok(), "Expected Ok for {:?}", input);

        let ast_res = parse_ast_from_str(input);
        assert!(ast_res.is_ok(), "Expected Ok for {:?}", input);
    }

    for input in err {
        let chars: Vec<char> = input.chars().collect();
        let parse_res = ConkParser::parse(Rule::file, &chars);

        if parse_res.is_ok() {
            let ast_res = parse_ast_from_str(input);
            assert!(ast_res.is_err(), "Expected Err for {:?}", input);
        } else {
            assert!(parse_res.is_err(), "Expected Err for {:?}", input);
        }
    }
}
