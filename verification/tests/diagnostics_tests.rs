use carina::lsp::diagnostics::{DiagnosticEngine, DiagnosticSeverity};
use carina::parser::{ParseError, ParsedFile};
use carina::resource::{Resource, Value, ValueMap};

fn file_with(resources: Vec<Resource>) -> ParsedFile {
    ParsedFile {
        providers: vec![],
        resources,
        variables: ValueMap::new(),
        imports: vec![],
        module_calls: vec![],
        inputs: vec![],
        outputs: vec![],
        backend: None,
    }
}

#[test]
fn parse_errors_become_one_diagnostic() {
    let engine = DiagnosticEngine::new();
    let d = engine.analyze("x", &Err(ParseError::Syntax { line: 3, column: 5 }));
    assert_eq!(d.len(), 1);
    assert_eq!((d[0].start_line, d[0].start_character, d[0].end_line, d[0].end_character), (2, 4, 2, 5));
    assert_eq!(d[0].severity, DiagnosticSeverity::Error);
    assert_eq!(d[0].source, "carina");
    assert_eq!(d[0].message, "Syntax error at line 3, column 5");

    let d = engine.analyze("", &Err(ParseError::InvalidExpression { line: 0, message: "bad".to_string() }));
    assert_eq!((d[0].start_line, d[0].start_character, d[0].end_line, d[0].end_character), (0, 0, 0, 100));
    assert_eq!(d[0].message, "bad");

    let d = engine.analyze("", &Err(ParseError::EnvVarNotSet("HOME".to_string())));
    assert_eq!(d[0].severity, DiagnosticSeverity::Warning);
    assert_eq!(d[0].message, "Environment variable not set: HOME");

    let d = engine.analyze("", &Err(ParseError::UndefinedVariable("v".to_string())));
    assert_eq!(d[0].severity, DiagnosticSeverity::Error);
    assert_eq!(d[0].message, "Undefined variable: v");
}

#[test]
fn unknown_resource_types_are_errors() {
    let engine = DiagnosticEngine::new();
    let text = "\naws.route {\n  name = \"r\"\n}\n";
    let file = file_with(vec![Resource::new("route", "r")]);
    let d = engine.analyze(text, &Ok(file));
    assert_eq!(d.len(), 1);
    assert_eq!((d[0].start_line, d[0].start_character, d[0].end_line, d[0].end_character), (1, 0, 1, 9));
    assert_eq!(d[0].message, "Unknown resource type: aws.route");
    assert_eq!(d[0].severity, DiagnosticSeverity::Error);

    // a known type gives nothing
    let file = file_with(vec![Resource::new("vpc", "v")]);
    assert!(engine.analyze("aws.vpc {\n}\n", &Ok(file)).is_empty());
}

#[test]
fn references_where_strings_are_expected_are_warnings() {
    let engine = DiagnosticEngine::new();
    let text = "let v = aws.vpc {\n}\naws.subnet {\n  name = v\n}\n";
    let r = Resource::new("subnet", "s").with_attribute("name", Value::String("${v}".to_string()));
    let d = engine.analyze(text, &Ok(file_with(vec![r])));
    assert_eq!(d.len(), 1);
    assert_eq!((d[0].start_line, d[0].start_character, d[0].end_line, d[0].end_character), (3, 9, 3, 10));
    assert_eq!(d[0].severity, DiagnosticSeverity::Warning);
    assert_eq!(d[0].message, "Expected string, got resource reference 'v'. Did you mean 'v.name'?");

    let r = Resource::new("subnet", "s")
        .with_attribute("name", Value::ResourceRef("main".to_string(), "id".to_string()));
    let d = engine.analyze("aws.subnet {\n  name = main.id\n}\n", &Ok(file_with(vec![r])));
    assert_eq!(d.len(), 1);
    assert_eq!((d[0].start_line, d[0].start_character, d[0].end_character), (1, 9, 13));

    // attributes whose schema type is not a string, and internal ones, are not checked
    let r = Resource::new("subnet", "s")
        .with_attribute("cidr_block", Value::ResourceRef("main".to_string(), "id".to_string()))
        .with_attribute("_type", Value::String("${x}".to_string()));
    assert!(engine.analyze("aws.subnet {\n  cidr_block = main.id\n}\n", &Ok(file_with(vec![r]))).is_empty());
}

#[test]
fn schemas_are_looked_up_by_type() {
    let engine = DiagnosticEngine::new();
    assert_eq!(engine.get_schema_for_type("vpc").map(|s| s.resource_type.clone()), Some("vpc".to_string()));
    assert!(engine.get_schema_for_type("s3.bucket").is_none());
}
