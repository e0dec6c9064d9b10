use carina::parser::resolve::parse_and_resolve;
use carina::parser::statements::parse;
use carina::parser::{Environment, ParseError, TypeExpr};
use carina::resource::{ResourceTypePath, Value};

#[test]
fn parse_provider_block() {
    let input = r#"
        provider aws {
            region = aws.Region.ap_northeast_1
        }
    "#;

    let result = parse(input, &Environment::new()).unwrap();
    assert_eq!(result.providers.len(), 1);
    assert_eq!(result.providers[0].name, "aws");
}

#[test]
fn parse_resource_with_namespaced_type() {
    let input = r#"
        let my_bucket = aws.s3.bucket {
            name = "my-bucket"
            region = aws.Region.ap_northeast_1
        }
    "#;

    let result = parse(input, &Environment::new()).unwrap();
    assert_eq!(result.resources.len(), 1);

    let resource = &result.resources[0];
    assert_eq!(resource.id.resource_type, "s3.bucket");
    assert_eq!(resource.id.name, "my-bucket"); // name attribute value becomes the resource ID
    assert_eq!(
        resource.attributes.get("name"),
        Some(&Value::String("my-bucket".to_string()))
    );
    assert_eq!(
        resource.attributes.get("region"),
        Some(&Value::String("aws.Region.ap_northeast_1".to_string()))
    );
}

#[test]
fn parse_multiple_resources() {
    let input = r#"
        let logs = aws.s3.bucket {
            name = "app-logs"
        }

        let data = aws.s3.bucket {
            name = "app-data"
        }
    "#;

    let result = parse(input, &Environment::new()).unwrap();
    assert_eq!(result.resources.len(), 2);
    assert_eq!(result.resources[0].id.name, "app-logs"); // name attribute value becomes the resource ID
    assert_eq!(result.resources[1].id.name, "app-data");
}

#[test]
fn parse_variable_and_resource() {
    let input = r#"
        let default_region = aws.Region.ap_northeast_1

        let my_bucket = aws.s3.bucket {
            name = "my-bucket"
            region = default_region
        }
    "#;

    let result = parse(input, &Environment::new()).unwrap();
    assert_eq!(result.resources.len(), 1);
    assert_eq!(
        result.resources[0].attributes.get("region"),
        Some(&Value::String("aws.Region.ap_northeast_1".to_string()))
    );
}

#[test]
fn parse_full_example() {
    let input = r#"
        # Provider configuration
        provider aws {
            region = aws.Region.ap_northeast_1
        }

        # Variables
        let versioning = true
        let retention_days = 90

        # Resources
        let app_logs = aws.s3.bucket {
            name = "my-app-logs"
            versioning = versioning
            expiration_days = retention_days
        }

        let app_data = aws.s3.bucket {
            name = "my-app-data"
            versioning = versioning
        }
    "#;

    let result = parse(input, &Environment::new()).unwrap();
    assert_eq!(result.providers.len(), 1);
    assert_eq!(result.resources.len(), 2);
    assert_eq!(
        result.resources[0].attributes.get("versioning"),
        Some(&Value::Bool(true))
    );
    assert_eq!(
        result.resources[0].attributes.get("expiration_days"),
        Some(&Value::Int(90))
    );
}

#[test]
fn parse_gcp_resource() {
    let input = r#"
        let my_bucket = gcp.storage.bucket {
            name = "my-gcp-bucket"
            location = gcp.Location.asia_northeast1
        }
    "#;

    let result = parse(input, &Environment::new()).unwrap();
    assert_eq!(result.resources.len(), 1);
    assert_eq!(result.resources[0].id.resource_type, "storage.bucket");
    assert_eq!(
        result.resources[0].attributes.get("_provider"),
        Some(&Value::String("gcp".to_string()))
    );
}

#[test]
fn parse_anonymous_resource() {
    let input = r#"
        aws.s3.bucket {
            name = "my-anonymous-bucket"
            region = aws.Region.ap_northeast_1
        }
    "#;

    let result = parse(input, &Environment::new()).unwrap();
    assert_eq!(result.resources.len(), 1);

    let resource = &result.resources[0];
    assert_eq!(resource.id.resource_type, "s3.bucket");
    assert_eq!(resource.id.name, "my-anonymous-bucket");
}

#[test]
fn parse_mixed_resources() {
    let input = r#"
        # Anonymous resource
        aws.s3.bucket {
            name = "anonymous-bucket"
        }

        # Named resource
        let named = aws.s3.bucket {
            name = "named-bucket"
        }
    "#;

    let result = parse(input, &Environment::new()).unwrap();
    assert_eq!(result.resources.len(), 2);
    assert_eq!(result.resources[0].id.name, "anonymous-bucket");
    assert_eq!(result.resources[1].id.name, "named-bucket"); // name attribute value becomes the resource ID
}

#[test]
fn parse_anonymous_resource_without_name_fails() {
    let input = r#"
        aws.s3.bucket {
            region = aws.Region.ap_northeast_1
        }
    "#;

    let result = parse(input, &Environment::new());
    assert!(result.is_err());
}

#[test]
fn parse_resource_reference() {
    let input = r#"
        let bucket = aws.s3.bucket {
            name = "my-bucket"
            region = aws.Region.ap_northeast_1
        }

        let policy = aws.s3.bucket_policy {
            name = "my-policy"
            bucket = bucket.name
        }
    "#;

    let result = parse(input, &Environment::new()).unwrap();
    assert_eq!(result.resources.len(), 2);

    // Before resolution, the attribute should be a ResourceRef
    let policy = &result.resources[1];
    assert_eq!(
        policy.attributes.get("bucket"),
        Some(&Value::ResourceRef(
            "bucket".to_string(),
            "name".to_string()
        ))
    );
}

#[test]
fn parse_and_resolve_resource_reference() {
    let input = r#"
        let bucket = aws.s3.bucket {
            name = "my-bucket"
            region = aws.Region.ap_northeast_1
        }

        let policy = aws.s3.bucket_policy {
            name = "my-policy"
            bucket = bucket.name
            bucket_region = bucket.region
        }
    "#;

    let result = parse_and_resolve(input, &Environment::new()).unwrap();
    assert_eq!(result.resources.len(), 2);

    // After resolution, the attribute should be the actual value
    let policy = &result.resources[1];
    assert_eq!(
        policy.attributes.get("bucket"),
        Some(&Value::String("my-bucket".to_string()))
    );
    assert_eq!(
        policy.attributes.get("bucket_region"),
        Some(&Value::String("aws.Region.ap_northeast_1".to_string()))
    );
}

#[test]
fn parse_undefined_resource_reference_fails() {
    let input = r#"
        let policy = aws.s3.bucket_policy {
            name = "my-policy"
            bucket = nonexistent.name
        }
    "#;

    // Parsing succeeds, but resolution fails
    let result = parse_and_resolve(input, &Environment::new());
    assert!(result.is_err());
    match result {
        Err(ParseError::UndefinedVariable(name)) => {
            assert!(name.contains("nonexistent"));
        }
        _ => panic!("Expected UndefinedVariable error"),
    }
}

#[test]
fn resource_reference_preserves_namespaced_id() {
    // Ensure that aws.Region.ap_northeast_1 is NOT treated as a resource reference
    let input = r#"
        let bucket = aws.s3.bucket {
            name = "my-bucket"
            region = aws.Region.ap_northeast_1
        }
    "#;

    let result = parse(input, &Environment::new()).unwrap();
    assert_eq!(
        result.resources[0].attributes.get("region"),
        Some(&Value::String("aws.Region.ap_northeast_1".to_string()))
    );
}

#[test]
fn parse_nested_blocks_terraform_style() {
    let input = r#"
        let web_sg = aws.security_group {
            name        = "web-sg"
            region      = aws.Region.ap_northeast_1
            vpc         = "my-vpc"
            description = "Web server security group"

            ingress {
                protocol  = "tcp"
                from_port = 80
                to_port   = 80
                cidr      = "0.0.0.0/0"
            }

            ingress {
                protocol  = "tcp"
                from_port = 443
                to_port   = 443
                cidr      = "0.0.0.0/0"
            }

            egress {
                protocol  = "-1"
                from_port = 0
                to_port   = 0
                cidr      = "0.0.0.0/0"
            }
        }
    "#;

    let result = parse(input, &Environment::new()).unwrap();
    assert_eq!(result.resources.len(), 1);

    let sg = &result.resources[0];
    assert_eq!(sg.id.resource_type, "security_group");

    // Check ingress is a list with 2 items
    let ingress = sg.attributes.get("ingress").unwrap();
    if let Value::List(items) = ingress {
        assert_eq!(items.len(), 2);

        // Check first ingress rule
        if let Value::Dict(rule) = &items[0] {
            assert_eq!(
                rule.get("protocol"),
                Some(&Value::String("tcp".to_string()))
            );
            assert_eq!(rule.get("from_port"), Some(&Value::Int(80)));
        } else {
            panic!("Expected map for ingress rule");
        }
    } else {
        panic!("Expected list for ingress");
    }

    // Check egress is a list with 1 item
    let egress = sg.attributes.get("egress").unwrap();
    if let Value::List(items) = egress {
        assert_eq!(items.len(), 1);
    } else {
        panic!("Expected list for egress");
    }
}

#[test]
fn parse_list_syntax() {
    let input = r#"
        let rt = aws.route_table {
            name   = "public-rt"
            region = aws.Region.ap_northeast_1
            vpc    = "my-vpc"
            routes = [
                { destination = "0.0.0.0/0", gateway = "my-igw" },
                { destination = "10.0.0.0/8", gateway = "local" }
            ]
        }
    "#;

    let result = parse(input, &Environment::new()).unwrap();
    assert_eq!(result.resources.len(), 1);

    let rt = &result.resources[0];
    let routes = rt.attributes.get("routes").unwrap();
    if let Value::List(items) = routes {
        assert_eq!(items.len(), 2);

        if let Value::Dict(route) = &items[0] {
            assert_eq!(
                route.get("destination"),
                Some(&Value::String("0.0.0.0/0".to_string()))
            );
            assert_eq!(
                route.get("gateway"),
                Some(&Value::String("my-igw".to_string()))
            );
        } else {
            panic!("Expected map for route");
        }
    } else {
        panic!("Expected list for routes");
    }
}

#[test]
fn parse_directory_module() {
    let input = r#"
        input {
            vpc_id: string
            enable_https: bool = true
        }

        output {
            sg_id: string = web_sg.id
        }

        let web_sg = aws.security_group {
            name   = "web-sg"
            vpc_id = input.vpc_id
        }
    "#;

    let result = parse(input, &Environment::new()).unwrap();

    // Check inputs
    assert_eq!(result.inputs.len(), 2);
    assert_eq!(result.inputs[0].name, "vpc_id");
    assert_eq!(result.inputs[0].type_expr, TypeExpr::String);
    assert!(result.inputs[0].default.is_none());

    assert_eq!(result.inputs[1].name, "enable_https");
    assert_eq!(result.inputs[1].type_expr, TypeExpr::Bool);
    assert_eq!(result.inputs[1].default, Some(Value::Bool(true)));

    // Check outputs
    assert_eq!(result.outputs.len(), 1);
    assert_eq!(result.outputs[0].name, "sg_id");
    assert_eq!(result.outputs[0].type_expr, TypeExpr::String);

    // Check resource has input reference
    assert_eq!(result.resources.len(), 1);
    let sg = &result.resources[0];
    assert_eq!(
        sg.attributes.get("vpc_id"),
        Some(&Value::ResourceRef(
            "input".to_string(),
            "vpc_id".to_string()
        ))
    );
}

#[test]
fn parse_import_statement() {
    let input = r#"
        import "./modules/web_tier.crn" as web_tier
    "#;

    let result = parse(input, &Environment::new()).unwrap();
    assert_eq!(result.imports.len(), 1);
    assert_eq!(result.imports[0].path, "./modules/web_tier.crn");
    assert_eq!(result.imports[0].alias, "web_tier");
}

#[test]
fn parse_generic_type_expressions() {
    let input = r#"
        input {
            ports: list(int)
            tags: map(string)
            cidrs: list(string)
        }

        output {
            result: list(string)
        }
    "#;

    let result = parse(input, &Environment::new()).unwrap();

    assert_eq!(
        result.inputs[0].type_expr,
        TypeExpr::List(Box::new(TypeExpr::Int))
    );
    assert_eq!(
        result.inputs[1].type_expr,
        TypeExpr::Dict(Box::new(TypeExpr::String))
    );
    assert_eq!(
        result.inputs[2].type_expr,
        TypeExpr::List(Box::new(TypeExpr::String))
    );
    assert_eq!(
        result.outputs[0].type_expr,
        TypeExpr::List(Box::new(TypeExpr::String))
    );
}

#[test]
fn parse_ref_type_expression() {
    let input = r#"
        input {
            vpc: ref(aws.vpc)
            enable_https: bool = true
        }

        output {
            security_group_id: ref(aws.security_group) = web_sg.id
        }

        let web_sg = aws.security_group {
            name   = "web-sg"
            vpc_id = input.vpc
        }
    "#;

    let result = parse(input, &Environment::new()).unwrap();

    // Check ref type input
    assert_eq!(result.inputs[0].name, "vpc");
    assert_eq!(
        result.inputs[0].type_expr,
        TypeExpr::Ref(ResourceTypePath::new("aws", "vpc"))
    );
    assert!(result.inputs[0].default.is_none());

    // Check ref type output
    assert_eq!(result.outputs[0].name, "security_group_id");
    assert_eq!(
        result.outputs[0].type_expr,
        TypeExpr::Ref(ResourceTypePath::new("aws", "security_group"))
    );
}

#[test]
fn parse_ref_type_with_nested_resource_type() {
    let input = r#"
        input {
            sg: ref(aws.security_group)
            rule: ref(aws.security_group.ingress_rule)
        }

        output {
            out: string
        }
    "#;

    let result = parse(input, &Environment::new()).unwrap();

    // Single-level resource type
    assert_eq!(
        result.inputs[0].type_expr,
        TypeExpr::Ref(ResourceTypePath::new("aws", "security_group"))
    );

    // Nested resource type (security_group.ingress_rule)
    assert_eq!(
        result.inputs[1].type_expr,
        TypeExpr::Ref(ResourceTypePath::new("aws", "security_group.ingress_rule"))
    );
}

#[test]
fn resource_type_path_parse() {
    // Simple resource type
    let path = ResourceTypePath::parse("aws.vpc").unwrap();
    assert_eq!(path.provider, "aws");
    assert_eq!(path.resource_type, "vpc");

    // Nested resource type
    let path2 = ResourceTypePath::parse("aws.security_group.ingress_rule").unwrap();
    assert_eq!(path2.provider, "aws");
    assert_eq!(path2.resource_type, "security_group.ingress_rule");

    // Invalid (single component)
    assert!(ResourceTypePath::parse("vpc").is_none());
}

#[test]
fn resource_type_path_display() {
    let path = ResourceTypePath::new("aws", "vpc");
    assert_eq!(path.to_string(), "aws.vpc");

    let path2 = ResourceTypePath::new("aws", "security_group.ingress_rule");
    assert_eq!(path2.to_string(), "aws.security_group.ingress_rule");
}

#[test]
fn type_expr_display_with_ref() {
    assert_eq!(TypeExpr::String.to_text(), "string");
    assert_eq!(TypeExpr::Bool.to_text(), "bool");
    assert_eq!(TypeExpr::Int.to_text(), "int");
    assert_eq!(
        TypeExpr::List(Box::new(TypeExpr::String)).to_text(),
        "list(string)"
    );
    assert_eq!(
        TypeExpr::Ref(ResourceTypePath::new("aws", "vpc")).to_text(),
        "ref(aws.vpc)"
    );
}

#[test]
fn parse_backend_block() {
    let input = r#"
        backend s3 {
            bucket      = "my-carina-state"
            key         = "infra/prod/carina.crnstate"
            region      = aws.Region.ap_northeast_1
            encrypt     = true
            auto_create = true
        }

        provider aws {
            region = aws.Region.ap_northeast_1
        }
    "#;

    let result = parse(input, &Environment::new()).unwrap();

    // Check backend
    assert!(result.backend.is_some());
    let backend = result.backend.unwrap();
    assert_eq!(backend.backend_type, "s3");
    assert_eq!(
        backend.attributes.get("bucket"),
        Some(&Value::String("my-carina-state".to_string()))
    );
    assert_eq!(
        backend.attributes.get("key"),
        Some(&Value::String("infra/prod/carina.crnstate".to_string()))
    );
    assert_eq!(
        backend.attributes.get("region"),
        Some(&Value::String("aws.Region.ap_northeast_1".to_string()))
    );
    assert_eq!(backend.attributes.get("encrypt"), Some(&Value::Bool(true)));
    assert_eq!(
        backend.attributes.get("auto_create"),
        Some(&Value::Bool(true))
    );

    // Check provider
    assert_eq!(result.providers.len(), 1);
    assert_eq!(result.providers[0].name, "aws");
}

#[test]
fn parse_backend_block_with_resources() {
    let input = r#"
        backend s3 {
            bucket = "my-state"
            key    = "prod/carina.state"
            region = aws.Region.ap_northeast_1
        }

        provider aws {
            region = aws.Region.ap_northeast_1
        }

        aws.s3.bucket {
            name       = "my-state"
            versioning = "Enabled"
        }

        aws.vpc.vpc {
            name       = "main-vpc"
            cidr_block = "10.0.0.0/16"
        }
    "#;

    let result = parse(input, &Environment::new()).unwrap();

    assert!(result.backend.is_some());
    let backend = result.backend.unwrap();
    assert_eq!(backend.backend_type, "s3");
    assert_eq!(
        backend.attributes.get("bucket"),
        Some(&Value::String("my-state".to_string()))
    );

    assert_eq!(result.providers.len(), 1);
    assert_eq!(result.resources.len(), 2);
}

#[test]
fn parse_env_reads_the_given_environment() {
    let mut env = Environment::new();
    env.set("CARINA_TEST_VAR", "test-value");
    let input = r#"
        let my_bucket = aws.s3.bucket {
            name = env("CARINA_TEST_VAR")
        }
    "#;
    let result = parse(input, &env).unwrap();
    assert_eq!(
        result.resources[0].attributes.get("name"),
        Some(&Value::String("test-value".to_string()))
    );
    let missing = parse(input, &Environment::new());
    assert!(matches!(missing, Err(ParseError::EnvVarNotSet(name)) if name == "CARINA_TEST_VAR"));
}

#[test]
fn syntax_errors_report_line_and_column() {
    let input = "provider aws {\n  region = \n}\n";
    match parse(input, &Environment::new()) {
        Err(ParseError::Syntax { line, column }) => {
            assert_eq!((line, column), (1, 1));
        }
        other => panic!("Expected syntax error, got {:?}", other),
    }
    match parse("let x = 1\n@", &Environment::new()) {
        Err(ParseError::Syntax { line, column }) => assert_eq!((line, column), (2, 1)),
        other => panic!("Expected syntax error, got {:?}", other),
    }
}

#[test]
fn syntax_is_checked_before_meaning() {
    // An undefined variable comes before a syntax error, which wins.
    let input = "let a = undefined_var\nlet = 3\n";
    assert!(matches!(parse(input, &Environment::new()), Err(ParseError::Syntax { .. })));
    assert!(matches!(
        parse("let a = undefined_var\n", &Environment::new()),
        Err(ParseError::UndefinedVariable(v)) if v == "undefined_var"
    ));
}

#[test]
fn string_escapes_and_numbers() {
    let input = r#"
        let a = "line\nbreak \"quoted\" back\\slash"
        let b = -42
        let c = [1, 2, 3,]
        let d = { x = 1, y = "two" }
        let e = (false)
    "#;
    let f = parse(input, &Environment::new()).unwrap();
    assert_eq!(
        f.variables.get("a"),
        Some(&Value::String("line\nbreak \"quoted\" back\\slash".to_string()))
    );
    assert_eq!(f.variables.get("b"), Some(&Value::Int(-42)));
    assert_eq!(
        f.variables.get("c"),
        Some(&Value::List(vec![Value::Int(1), Value::Int(2), Value::Int(3)]))
    );
    assert_eq!(f.variables.get("e"), Some(&Value::Bool(false)));
}

#[test]
fn accessing_attribute_of_plain_variable_fails() {
    let input = "let x = 1\nlet y = x.id\n";
    match parse(input, &Environment::new()) {
        Err(e @ ParseError::InvalidExpression { .. }) => {
            assert_eq!(
                e.message(),
                "Invalid expression at line 0: 'x' is not a resource, cannot access attribute 'id'"
            );
        }
        other => panic!("Expected invalid expression, got {:?}", other),
    }
}

#[test]
fn module_calls_and_pipes() {
    let input = r#"
        import "./modules/web" as web
        web {
            vpc = "v"
        }
        let x = "a" |> upper() |> pad(1, 2)
    "#;
    let f = parse(input, &Environment::new()).unwrap();
    assert_eq!(f.module_calls.len(), 1);
    assert_eq!(f.module_calls[0].module_name, "web");
    assert_eq!(f.variables.get("x"), Some(&Value::String("a".to_string())));
}
