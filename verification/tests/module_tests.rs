use carina::module::{
    Dependency, DependencyGraph, FileSignature, ModuleSignature, RootConfigSignature,
    TypedDependency, TypedDependencyGraph,
};
use carina::parser::statements::parse;
use carina::parser::{Environment, TypeExpr};
use carina::resource::ResourceTypePath;

fn dep(target: &str, used_in: &str) -> Dependency {
    Dependency {
        target: target.to_string(),
        attribute: "id".to_string(),
        used_in: used_in.to_string(),
    }
}

#[test]
fn test_cycle_detection() {
    let mut graph = DependencyGraph::new();

    // Create a cycle: a -> b -> c -> a
    graph.add_edge("a".to_string(), dep("b", "b_id"));
    graph.add_edge("b".to_string(), dep("c", "c_id"));
    graph.add_edge("c".to_string(), dep("a", "a_id"));

    assert!(graph.has_cycle());
}

#[test]
fn test_no_cycle() {
    let mut graph = DependencyGraph::new();

    // Create a DAG: a -> b -> c
    graph.add_edge("a".to_string(), dep("b", "b_id"));
    graph.add_edge("b".to_string(), dep("c", "c_id"));

    assert!(!graph.has_cycle());
}

#[test]
fn test_module_signature_display() {
    let input = r#"
        input {
            vpc: ref(aws.vpc)
            enable_https: bool = true
        }

        output {
            security_group: ref(aws.security_group) = web_sg.id
        }

        let web_sg = aws.security_group {
            name   = "web-sg"
            vpc_id = input.vpc
        }

        let http_rule = aws.security_group.ingress_rule {
            name              = "http"
            security_group_id = web_sg.id
            from_port         = 80
            to_port           = 80
        }
    "#;

    let parsed = parse(input, &Environment::new()).unwrap();
    let signature = ModuleSignature::from_directory_module(&parsed, "web_tier");
    let display = signature.display_with_color(false);

    // Check sections are present
    assert!(display.contains("Module: web_tier"));
    assert!(display.contains("=== REQUIRES ==="));
    assert!(display.contains("=== CREATES ==="));
    assert!(display.contains("=== EXPOSES ==="));

    // Check ref types are displayed correctly
    assert!(display.contains("ref(aws.vpc)"));
    assert!(display.contains("ref(aws.security_group)"));

    // Check tree structure shows resources
    assert!(display.contains("web_sg: aws.security_group"));
    assert!(display.contains("http_rule: aws.security_group.ingress_rule"));
}

#[test]
fn test_typed_dependency_graph() {
    let mut graph = TypedDependencyGraph::new();

    graph.add_edge(
        "web_sg".to_string(),
        TypedDependency {
            target: "input".to_string(),
            target_type: Some(ResourceTypePath::new("aws", "vpc")),
            attribute: "vpc".to_string(),
            used_in: "vpc_id".to_string(),
        },
    );

    let deps = graph.dependencies_of("web_sg");
    assert_eq!(deps.len(), 1);
    assert_eq!(deps[0].target, "input");
    assert_eq!(deps[0].attribute, "vpc");
    assert!(deps[0].target_type.is_some());
}

#[test]
fn test_directory_based_module() {
    // Parse a directory-based module (no module {} wrapper)
    let input = r#"
        input {
            vpc: ref(aws.vpc)
            enable_https: bool = true
        }

        output {
            security_group: ref(aws.security_group) = web_sg.id
        }

        let web_sg = aws.security_group {
            name   = "web-sg"
            vpc_id = input.vpc
        }
    "#;

    let parsed = parse(input, &Environment::new()).unwrap();

    // Verify parsed file has top-level inputs and outputs
    assert_eq!(parsed.inputs.len(), 2);
    assert_eq!(parsed.outputs.len(), 1);

    // Create signature from directory-based module
    let signature = ModuleSignature::from_directory_module(&parsed, "web_tier");

    // Check module name
    assert_eq!(signature.name, "web_tier");

    // Check requires
    assert_eq!(signature.inputs.len(), 2);
    assert_eq!(signature.inputs[0].name, "vpc");
    assert!(matches!(signature.inputs[0].type_expr, TypeExpr::Ref(_)));

    // Check creates
    assert_eq!(signature.creates.len(), 1);
    assert_eq!(signature.creates[0].binding_name, "web_sg");

    // Check exposes
    assert_eq!(signature.exposes.len(), 1);
    assert_eq!(signature.exposes[0].name, "security_group");
}

#[test]
fn test_file_signature_from_directory_module() {
    // Directory-based module (top-level input/output)
    let input = r#"
        input {
            vpc: ref(aws.vpc)
        }
        output {
            sg: ref(aws.security_group)
        }
    "#;

    let parsed = parse(input, &Environment::new()).unwrap();
    let signature = FileSignature::from_parsed_file(&parsed, "web_tier");

    // Should be detected as a Module, not a RootConfig
    assert!(matches!(signature, FileSignature::Module(_)));

    if let FileSignature::Module(sig) = signature {
        assert_eq!(sig.name, "web_tier");
        assert_eq!(sig.inputs.len(), 1);
        assert_eq!(sig.exposes.len(), 1);
    }
}

#[test]
fn test_file_signature_from_root_config() {
    // Root config (no input/output, no module wrapper)
    let input = r#"
        provider aws {
            region = aws.Region.ap_northeast_1
        }

        let main_vpc = aws.vpc {
            name = "main-vpc"
            cidr_block = "10.0.0.0/16"
        }
    "#;

    let parsed = parse(input, &Environment::new()).unwrap();
    let signature = FileSignature::from_parsed_file(&parsed, "main");

    // Should be detected as a RootConfig
    assert!(matches!(signature, FileSignature::RootConfig(_)));

    if let FileSignature::RootConfig(sig) = signature {
        assert_eq!(sig.name, "main");
        assert_eq!(sig.resources.len(), 1);
    }
}

#[test]
fn module_signature_display_is_exact() {
    let input = r#"
        input {
            vpc: ref(aws.vpc)
            enable_https: bool = true
        }

        output {
            security_group: ref(aws.security_group) = web_sg.id
        }

        let web_sg = aws.security_group {
            name   = "web-sg"
            vpc_id = input.vpc
        }

        let http_rule = aws.security_group.ingress_rule {
            name              = "http"
            security_group_id = web_sg.id
        }
    "#;
    let parsed = parse(input, &Environment::new()).unwrap();
    let signature = ModuleSignature::from_directory_module(&parsed, "web_tier");
    assert!(signature.inputs[0].required);
    assert!(!signature.inputs[1].required);
    assert_eq!(signature.inputs[1].default, Some("true".to_string()));
    assert_eq!(signature.exposes[0].source_binding, Some("web_sg".to_string()));
    let deps = &signature.creates[0].dependencies;
    assert_eq!(deps.len(), 1);
    assert_eq!(deps[0].target, "input");
    assert_eq!(deps[0].target_type, Some(ResourceTypePath::new("aws", "vpc")));
    assert_eq!(
        signature.display_with_color(false),
        "Module: web_tier\n\n\
         === REQUIRES ===\n\n\
         \x20 vpc: ref(aws.vpc)  (required)\n\
         \x20 enable_https: bool = true  \n\
         \n\
         === CREATES ===\n\n\
         \x20 input { vpc: ref(aws.vpc) }\n\
         \x20   └── web_sg: aws.security_group\n\
         \x20      └── http_rule: aws.security_group.ingress_rule\n\
         \n\
         === EXPOSES ===\n\n\
         \x20 security_group: ref(aws.security_group)\n\
         \x20   <- from: web_sg\n"
    );
    let colored = signature.display();
    assert!(colored.contains("\x1b[1mModule:\x1b[0m \x1b[36mweb_tier\x1b[0m"));
}

#[test]
fn root_config_display_lists_resources_and_module_calls() {
    let input = r#"
        let main_vpc = aws.vpc {
            name = "main"
            cidr_block = "10.0.0.0/16"
        }
        let subnet = aws.subnet {
            name = "public"
            vpc_id = main_vpc.id
        }
    "#;
    let parsed = parse(input, &Environment::new()).unwrap();
    let signature = RootConfigSignature::from_parsed_file(&parsed, "main");
    assert_eq!(signature.resources[1].dependencies.len(), 1);
    assert_eq!(
        signature.resources[1].dependencies[0].target_type,
        Some(ResourceTypePath::new("aws", "vpc"))
    );
    assert_eq!(
        signature.display_with_color(false),
        "File: main\n\n\
         === IMPORTS ===\n\n\
         \x20 (none)\n\
         \n\
         === CREATES ===\n\n\
         \x20 main_vpc: aws.vpc\n\
         \x20   └── subnet: aws.subnet\n"
    );
}

#[test]
fn root_config_without_dependencies_lists_resources() {
    let input = r#"
        let a = aws.vpc {
            name = "a"
            cidr_block = "10.0.0.0/16"
        }
        let b = aws.vpc {
            name = "b"
            cidr_block = "10.1.0.0/16"
        }
    "#;
    let parsed = parse(input, &Environment::new()).unwrap();
    let signature = FileSignature::from_parsed_file_with_name(&parsed, "main");
    assert_eq!(
        signature.display(),
        "\x1b[1mFile:\x1b[0m \x1b[36mmain\x1b[0m\n\n\
         \x1b[1m=== IMPORTS ===\x1b[0m\n\n\
         \x20 \x1b[2m(none)\x1b[0m\n\
         \n\
         \x1b[1m=== CREATES ===\x1b[0m\n\n\
         \x20 \x1b[97ma\x1b[0m: \x1b[33maws.vpc\x1b[0m\n\
         \x20 \x1b[97mb\x1b[0m: \x1b[33maws.vpc\x1b[0m\n"
    );
}

#[test]
fn long_default_text_is_cut() {
    let input = r#"
        input {
            description: string = "abcdefghijklmnopqrstuvwxyzabcdefghijklmnopqrstuvwxyz"
        }
    "#;
    let parsed = parse(input, &Environment::new()).unwrap();
    let signature = ModuleSignature::from_directory_module(&parsed, "m");
    assert_eq!(
        signature.inputs[0].default,
        Some("\"abcdefghijklmnopqrstuvwxyzabcdefghijklmnopqrstu...\"".to_string())
    );
}
