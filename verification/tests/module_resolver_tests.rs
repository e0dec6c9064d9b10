use carina::module_resolver::{
    crn_file, merge_module_files, module_file_names, resolve_modules, substitute_inputs, LoadStep,
    ModuleError, ModuleResolver,
};
use carina::parser::{ImportStatement, InputParameter, ModuleCall, ParseError, ParsedFile, TypeExpr};
use carina::resource::{Resource, ResourceId, Value, ValueMap};

fn empty_file() -> ParsedFile {
    ParsedFile {
        providers: vec![],
        resources: vec![],
        variables: ValueMap::new(),
        imports: vec![],
        module_calls: vec![],
        inputs: vec![],
        outputs: vec![],
        backend: None,
    }
}

fn create_test_module() -> ParsedFile {
    let mut attrs = ValueMap::new();
    attrs.insert("name".to_string(), Value::String("sg".to_string()));
    attrs.insert(
        "vpc_id".to_string(),
        Value::ResourceRef("input".to_string(), "vpc_id".to_string()),
    );
    attrs.insert("_type".to_string(), Value::String("aws.security_group".to_string()));
    let mut f = empty_file();
    f.resources = vec![Resource { id: ResourceId::new("security_group", "sg"), attributes: attrs }];
    f.inputs = vec![
        InputParameter { name: "vpc_id".to_string(), type_expr: TypeExpr::String, default: None },
        InputParameter {
            name: "enable_flag".to_string(),
            type_expr: TypeExpr::Bool,
            default: Some(Value::Bool(true)),
        },
    ];
    f
}

fn resolver_with_test_module() -> ModuleResolver {
    let mut r = ModuleResolver::new(".");
    let step = r.begin_load("test_module.crn").unwrap();
    let full = match step {
        LoadStep::Read(full) => full,
        LoadStep::Cached(_) => panic!("nothing is cached yet"),
    };
    let index = r.finish_load("test_module.crn", full, Ok(create_test_module())).unwrap();
    r.add_module("test_module".to_string(), index);
    r
}

#[test]
fn test_substitute_inputs() {
    let mut inputs = ValueMap::new();
    inputs.insert("vpc_id".to_string(), Value::String("vpc-123".to_string()));

    let value = Value::ResourceRef("input".to_string(), "vpc_id".to_string());
    let result = substitute_inputs(&value, &inputs);

    assert_eq!(result, Value::String("vpc-123".to_string()));
}

#[test]
fn test_substitute_inputs_nested() {
    let mut inputs = ValueMap::new();
    inputs.insert("port".to_string(), Value::Int(8080));

    let value = Value::List(vec![
        Value::ResourceRef("input".to_string(), "port".to_string()),
        Value::Int(443),
    ]);
    let result = substitute_inputs(&value, &inputs);

    match result {
        Value::List(items) => {
            assert_eq!(items.len(), 2);
            assert_eq!(items[0], Value::Int(8080));
            assert_eq!(items[1], Value::Int(443));
        }
        _ => panic!("Expected list"),
    }
}

#[test]
fn test_expand_module_call() {
    let resolver = resolver_with_test_module();

    let mut args = ValueMap::new();
    args.insert("vpc_id".to_string(), Value::String("vpc-456".to_string()));
    let call = ModuleCall {
        module_name: "test_module".to_string(),
        binding_name: Some("my_instance".to_string()),
        arguments: args,
    };

    let expanded = resolver.expand_module_call(&call, "my_instance").unwrap();
    assert_eq!(expanded.len(), 1);

    let sg = &expanded[0];
    assert_eq!(sg.id.name, "my_instance_sg");
    assert_eq!(sg.attributes.get("vpc_id"), Some(&Value::String("vpc-456".to_string())));
    assert_eq!(sg.attributes.get("_module"), Some(&Value::String("test_module".to_string())));
}

#[test]
fn test_missing_required_input() {
    let resolver = resolver_with_test_module();

    let call = ModuleCall {
        module_name: "test_module".to_string(),
        binding_name: Some("my_instance".to_string()),
        arguments: ValueMap::new(),
    };

    let result = resolver.expand_module_call(&call, "my_instance");
    assert!(matches!(result, Err(ModuleError::MissingInput { .. })));
}

#[test]
fn expansion_renames_tags_and_substitutes() {
    let resolver = resolver_with_test_module();
    let mut args = ValueMap::new();
    args.insert("vpc_id".to_string(), Value::String("vpc-1".to_string()));
    let call = ModuleCall { module_name: "test_module".to_string(), binding_name: None, arguments: args };
    let sg = &resolver.expand_module_call(&call, "web").unwrap()[0];
    assert_eq!(sg.id.resource_type, "security_group");
    assert_eq!(sg.attributes.get("name"), Some(&Value::String("web_sg".to_string())));
    assert_eq!(sg.attributes.get("_module_instance"), Some(&Value::String("web".to_string())));
    assert_eq!(sg.attributes.get("_type"), Some(&Value::String("aws.security_group".to_string())));

    let unknown = ModuleCall { module_name: "nope".to_string(), binding_name: None, arguments: ValueMap::new() };
    match resolver.expand_module_call(&unknown, "x") {
        Err(e) => assert_eq!(e.message(), "Unknown module: nope"),
        Ok(_) => panic!("expected an error"),
    }
}

#[test]
fn loading_detects_cycles_and_caches() {
    let mut r = ModuleResolver::new("/base");
    assert_eq!(r.resolve_path("m.crn"), "/base/m.crn");
    assert_eq!(r.resolve_path("/abs/m.crn"), "/abs/m.crn");
    let full = match r.begin_load("m.crn").unwrap() {
        LoadStep::Read(full) => full,
        LoadStep::Cached(_) => panic!("nothing is cached yet"),
    };
    assert_eq!(full, "/base/m.crn");
    // loading the same module again while it loads is a cycle
    match r.begin_load("m.crn") {
        Err(ModuleError::CircularImport(p)) => assert_eq!(p, "m.crn"),
        _ => panic!("expected a circular import"),
    }
    let index = r.finish_load("m.crn", full, Ok(create_test_module())).unwrap();
    assert!(matches!(r.begin_load("m.crn"), Ok(LoadStep::Cached(i)) if i == index));

    // a file without inputs or outputs is no module
    let full = match r.begin_load("plain.crn").unwrap() {
        LoadStep::Read(full) => full,
        LoadStep::Cached(_) => panic!("nothing is cached yet"),
    };
    match r.finish_load("plain.crn", full, Ok(empty_file())) {
        Err(e) => assert_eq!(e.message(), "Module not found: plain.crn"),
        Ok(_) => panic!("expected an error"),
    }
    let err = ModuleError::Parse(ParseError::UndefinedVariable("x".to_string()));
    assert_eq!(err.message(), "Parse error: Undefined variable: x");
}

#[test]
fn module_calls_expand_into_the_file() {
    let resolver = resolver_with_test_module();
    let mut file = empty_file();
    file.imports = vec![ImportStatement { path: "test_module.crn".to_string(), alias: "test_module".to_string() }];
    let mut args = ValueMap::new();
    args.insert("vpc_id".to_string(), Value::String("vpc-9".to_string()));
    file.module_calls = vec![ModuleCall {
        module_name: "test_module".to_string(),
        binding_name: Some("net".to_string()),
        arguments: args,
    }];
    assert!(resolve_modules(&mut file, &resolver).is_ok());
    assert_eq!(file.resources.len(), 1);
    assert_eq!(file.resources[0].id.name, "net_sg");
}

#[test]
fn directory_modules() {
    let names = vec!["b.crn".to_string(), "notes.txt".to_string(), "a.crn".to_string(), ".crn".to_string()];
    assert_eq!(module_file_names(&names), vec!["a.crn".to_string(), "b.crn".to_string()]);
    assert!(crn_file("x.y.crn"));
    assert!(!crn_file("crn"));

    let mut a = empty_file();
    a.variables.insert("v".to_string(), Value::Int(1));
    a.inputs = create_test_module().inputs;
    let mut b = empty_file();
    b.variables.insert("v".to_string(), Value::Int(2));
    b.resources = create_test_module().resources;
    let merged = merge_module_files(vec![a, b]);
    assert_eq!(merged.inputs.len(), 2);
    assert_eq!(merged.resources.len(), 1);
    assert_eq!(merged.variables.get("v"), Some(&Value::Int(2)));
}

#[test]
fn module_call_arguments_are_checked_against_inputs() {
    let inputs = vec![
        InputParameter { name: "cidr".to_string(), type_expr: TypeExpr::Cidr, default: None },
        InputParameter { name: "flag".to_string(), type_expr: TypeExpr::Bool, default: None },
    ];
    let imported = vec![("net".to_string(), inputs)];
    let mut args = ValueMap::new();
    args.insert("cidr".to_string(), Value::String("10.0.0.0/16".to_string()));
    args.insert("flag".to_string(), Value::String("yes".to_string()));
    let mut f = empty_file();
    f.module_calls = vec![
        ModuleCall { module_name: "net".to_string(), binding_name: None, arguments: args },
        ModuleCall { module_name: "other".to_string(), binding_name: None, arguments: ValueMap::new() },
    ];
    let err = carina::cli::validate_module_calls(&f, &imported).unwrap_err();
    assert_eq!(err, "module net argument 'flag': expected bool, got string \"yes\". Use true or false.");
    let mut ok = empty_file();
    ok.module_calls = vec![ModuleCall { module_name: "other".to_string(), binding_name: None, arguments: ValueMap::new() }];
    assert!(carina::cli::validate_module_calls(&ok, &imported).is_ok());
}

#[test]
fn new_resolver_knows_no_module() {
    let r = ModuleResolver::new(".");
    assert!(r.get_module("anything").is_none());
    let call = ModuleCall { module_name: "m".to_string(), binding_name: None, arguments: ValueMap::new() };
    match r.expand_module_call(&call, "x") {
        Err(ModuleError::UnknownModule(name)) => assert_eq!(name, "m"),
        _ => panic!("expected an unknown module"),
    }
}
