use carina::cli::{
    apply_default_region, backend_auto_create, backend_bucket, backend_region,
    binding_map_with_states, convert_region_value, destroy_plan_display, destroy_summary,
    destroy_targets, find_state_bucket_resource, format_effect, format_value,
    get_aws_region, get_awscc_region, get_resource_dependencies, get_schemas,
    is_dsl_enum_format, merge_parsed, module_name_from_path, plan_display, resolve_ref_value,
    resolve_refs_with_state, sort_resources_by_dependencies, state_bucket_definition,
    validate_module_arg_type, validate_provider_region, validate_resources, values_equal,
    ApplyAction, ApplySession, ApplyStep, Style, Styled,
};
use carina::effect::Effect;
use carina::parser::statements::parse;
use carina::parser::{BackendConfig, Environment, TypeExpr};
use carina::plan::Plan;
use carina::resource::{Resource, ResourceId, State, Value, ValueMap};

fn text(pieces: &[Styled]) -> String {
    pieces.iter().map(|p| p.text.as_str()).collect()
}

fn bound(resource_type: &str, name: &str, binding: &str) -> Resource {
    Resource::new(resource_type, name).with_attribute("_binding", Value::String(binding.to_string()))
}

#[test]
fn format_effect_names_verb_and_target() {
    assert_eq!(format_effect(&Effect::Create(Resource::new("vpc", "main"))), "Create vpc.main");
    assert_eq!(format_effect(&Effect::Delete(ResourceId::new("s3.bucket", "b"))), "Delete s3.bucket.b");
    assert_eq!(
        format_effect(&Effect::Read { resource: Resource::new("vpc", "x") }),
        "Read vpc.x"
    );
}

#[test]
fn dsl_enum_format_patterns() {
    assert!(is_dsl_enum_format("aws.Region.ap_northeast_1"));
    assert!(is_dsl_enum_format("Region.ap_northeast_1"));
    assert!(is_dsl_enum_format("aws.s3.VersioningStatus.Enabled"));
    assert!(is_dsl_enum_format("awscc.vpc.InstanceTenancy.default"));
    assert!(!is_dsl_enum_format("region.ap"));
    assert!(!is_dsl_enum_format("Aws.Region.x"));
    assert!(!is_dsl_enum_format("plain"));
    assert!(!is_dsl_enum_format("a.b.c.d.e"));
}

#[test]
fn plan_values_are_shown_like_the_dsl() {
    assert_eq!(format_value(&Value::String("hello".to_string())), "\"hello\"");
    assert_eq!(format_value(&Value::String("aws.Region.us_east_1".to_string())), "aws.Region.us_east_1");
    assert_eq!(format_value(&Value::Int(-3)), "-3");
    assert_eq!(format_value(&Value::Bool(false)), "false");
    assert_eq!(
        format_value(&Value::List(vec![Value::Int(1), Value::String("a".to_string())])),
        "[1, \"a\"]"
    );
    let mut m = ValueMap::new();
    m.insert("k".to_string(), Value::Bool(true));
    assert_eq!(format_value(&Value::Dict(m)), "{k: true}");
    assert_eq!(format_value(&Value::ResourceRef("vpc".to_string(), "id".to_string())), "vpc.id");
    assert_eq!(
        format_value(&Value::UnresolvedIdent("InstanceTenancy".to_string(), Some("dedicated".to_string()))),
        "InstanceTenancy.dedicated"
    );
}

#[test]
fn dependencies_are_listed_once_in_order() {
    let r = Resource::new("subnet", "s")
        .with_attribute("vpc_id", Value::ResourceRef("vpc".to_string(), "id".to_string()))
        .with_attribute(
            "list",
            Value::List(vec![
                Value::ResourceRef("igw".to_string(), "id".to_string()),
                Value::ResourceRef("vpc".to_string(), "cidr".to_string()),
            ]),
        );
    assert_eq!(get_resource_dependencies(&r), vec!["vpc".to_string(), "igw".to_string()]);
}

#[test]
fn maps_are_equal_regardless_of_order() {
    let mut a = ValueMap::new();
    a.insert("x".to_string(), Value::Int(1));
    a.insert("y".to_string(), Value::Int(2));
    let mut b = ValueMap::new();
    b.insert("y".to_string(), Value::Int(2));
    b.insert("x".to_string(), Value::Int(1));
    assert!(values_equal(&Value::Dict(a), &Value::Dict(b)));
    assert!(!values_equal(&Value::Int(1), &Value::Bool(true)));
    assert!(!values_equal(
        &Value::List(vec![Value::Int(1)]),
        &Value::List(vec![Value::Int(1), Value::Int(2)])
    ));
}

#[test]
fn plan_display_draws_dependents_below() {
    let mut plan = Plan::new();
    plan.add(Effect::Create(
        bound("vpc", "main", "vpc")
            .with_attribute("name", Value::String("main-vpc".to_string()))
            .with_attribute("cidr_block", Value::String("10.0.0.0/16".to_string())),
    ));
    plan.add(Effect::Create(
        bound("subnet", "public", "subnet")
            .with_attribute("name", Value::String("public".to_string()))
            .with_attribute("vpc_id", Value::ResourceRef("vpc".to_string(), "id".to_string())),
    ));
    let shown = plan_display(&plan);
    assert_eq!(shown[0].style, Style::CyanBold);
    assert_eq!(
        text(&shown),
        "Execution Plan:\n\n\
         \x20 + vpc\n\
         \x20     name: \"main-vpc\"\n\
         \x20     cidr_block: \"10.0.0.0/16\"\n\
         \x20       └─ + subnet\n\
         \x20             name: \"public\"\n\
         \x20             vpc_id: vpc.id\n\
         \n\
         Plan: 2 to add, 0 to change, 0 to destroy.\n"
    );
}

#[test]
fn empty_plan_display() {
    let shown = plan_display(&Plan::new());
    assert_eq!(text(&shown), "No changes. Infrastructure is up-to-date.\n");
    assert_eq!(shown[0].style, Style::Green);
}

#[test]
fn plan_display_of_update_delete_and_read() {
    let mut plan = Plan::new();
    let id = ResourceId::new("vpc", "main");
    let mut from_attrs = ValueMap::new();
    from_attrs.insert("cidr_block".to_string(), Value::String("10.0.0.0/16".to_string()));
    from_attrs.insert("name".to_string(), Value::String("main".to_string()));
    plan.add(Effect::Update {
        id: id.clone(),
        from: State::existing(id, from_attrs),
        to: Resource::new("vpc", "main")
            .with_attribute("name", Value::String("main".to_string()))
            .with_attribute("cidr_block", Value::String("10.1.0.0/16".to_string()))
            .with_attribute("tags", Value::Int(1)),
    });
    plan.add(Effect::Delete(ResourceId::new("subnet", "old")));
    plan.add(Effect::Read { resource: Resource::new("ami", "base") });
    assert_eq!(
        text(&plan_display(&plan)),
        "Execution Plan:\n\n\
         \x20 ~ vpc\n\
         \x20     cidr_block: \"10.0.0.0/16\" → \"10.1.0.0/16\"\n\
         \x20     tags: (none) → 1\n\
         \x20 - subnet\n\
         \x20     name: old\n\
         \x20 <= ami (data source)\n\
         \x20     name: base\n\
         \n\
         Plan: 1 to read, 0 to add, 1 to change, 1 to destroy.\n"
    );
}

#[test]
fn references_are_followed_through_bindings() {
    let resources = vec![
        bound("vpc", "main", "vpc").with_attribute("cidr", Value::String("10.0.0.0/16".to_string())),
        bound("subnet", "s", "subnet")
            .with_attribute("vpc_cidr", Value::ResourceRef("vpc".to_string(), "cidr".to_string()))
            .with_attribute("vpc_id", Value::ResourceRef("vpc".to_string(), "id".to_string())),
    ];
    let mut state_attrs = ValueMap::new();
    state_attrs.insert("id".to_string(), Value::String("vpc-123".to_string()));
    let states = vec![State::existing(ResourceId::new("vpc", "main"), state_attrs)];
    let bm = binding_map_with_states(&resources, &states);
    assert_eq!(
        resolve_ref_value(&Value::ResourceRef("vpc".to_string(), "id".to_string()), &bm),
        Some(Value::String("vpc-123".to_string()))
    );
    let resolved = resolve_refs_with_state(&resources, &states).unwrap();
    assert_eq!(
        resolved[1].attributes.get("vpc_cidr"),
        Some(&Value::String("10.0.0.0/16".to_string()))
    );
    assert_eq!(
        resolved[1].attributes.get("vpc_id"),
        Some(&Value::String("vpc-123".to_string()))
    );
    // an unknown binding stays a reference
    assert_eq!(
        resolve_ref_value(&Value::ResourceRef("nope".to_string(), "id".to_string()), &bm),
        Some(Value::ResourceRef("nope".to_string(), "id".to_string()))
    );
}

#[test]
fn cyclic_references_are_reported() {
    let resources = vec![
        bound("a", "a", "a").with_attribute("x", Value::ResourceRef("b".to_string(), "y".to_string())),
        bound("b", "b", "b").with_attribute("y", Value::ResourceRef("a".to_string(), "x".to_string())),
    ];
    assert!(resolve_refs_with_state(&resources, &vec![]).is_none());
}

#[test]
fn resources_are_ordered_after_their_dependencies() {
    let resources = vec![
        bound("subnet", "s", "subnet").with_attribute("vpc_id", Value::ResourceRef("vpc".to_string(), "id".to_string())),
        bound("route", "r", "route").with_attribute("subnet_id", Value::ResourceRef("subnet".to_string(), "id".to_string())),
        bound("vpc", "v", "vpc"),
        Resource::new("bucket", "b"),
    ];
    let sorted = sort_resources_by_dependencies(&resources);
    let names: Vec<&str> = sorted.iter().map(|r| r.id.name.as_str()).collect();
    assert_eq!(names, vec!["v", "s", "r", "b"]);
}

#[test]
fn apply_session_resolves_and_rebinds() {
    let mut plan = Plan::new();
    plan.add(Effect::Create(bound("vpc", "main", "vpc")));
    plan.add(Effect::Create(
        bound("subnet", "s", "subnet").with_attribute("vpc_id", Value::ResourceRef("vpc".to_string(), "id".to_string())),
    ));
    plan.add(Effect::Read { resource: Resource::new("ami", "x") });
    plan.add(Effect::Delete(ResourceId::new("old", "o")));
    let mut session = ApplySession::new(Vec::new());

    let step = session.next_step(&plan);
    let action = match step {
        ApplyStep::Call(a) => a,
        other => panic!("unexpected {:?}", other),
    };
    let mut created = ValueMap::new();
    created.insert("id".to_string(), Value::String("vpc-1".to_string()));
    session.record(&plan, &action, Ok(State::existing(ResourceId::new("vpc", "main"), created)));

    let action = match session.next_step(&plan) {
        ApplyStep::Call(a) => a,
        other => panic!("unexpected {:?}", other),
    };
    match &action {
        ApplyAction::Create { resource } => assert_eq!(
            resource.attributes.get("vpc_id"),
            Some(&Value::String("vpc-1".to_string()))
        ),
        other => panic!("unexpected {:?}", other),
    }
    session.record(&plan, &action, Err("boom".to_string()));

    assert!(matches!(session.next_step(&plan), ApplyStep::Skip));
    session.next += 1;
    let action = match session.next_step(&plan) {
        ApplyStep::Call(a) => a,
        other => panic!("unexpected {:?}", other),
    };
    assert!(matches!(action, ApplyAction::Delete { .. }));
    session.record(&plan, &action, Ok(State::not_found(ResourceId::new("old", "o"))));
    assert!(matches!(session.next_step(&plan), ApplyStep::Done));
    assert_eq!(session.success_count, 2);
    assert_eq!(session.failure_count, 1);
    assert_eq!(session.summary(), "Apply failed. 2 succeeded, 1 failed.");
    let done = ApplySession::new(Vec::new());
    assert_eq!(done.summary(), "Apply complete! 0 changes applied.");
}

#[test]
fn destroy_skips_missing_and_protected_resources() {
    let order = vec![
        Resource::new("s3.bucket", "state").with_attribute("name", Value::String("my-state".to_string())),
        Resource::new("vpc", "main"),
        Resource::new("subnet", "gone"),
    ];
    let states = vec![
        State::existing(ResourceId::new("s3.bucket", "state"), ValueMap::new()),
        State::existing(ResourceId::new("vpc", "main"), ValueMap::new()),
        State::not_found(ResourceId::new("subnet", "gone")),
    ];
    let (destroy, protected) = destroy_targets(&order, &states, &Some("my-state".to_string()));
    assert_eq!(destroy, vec![1]);
    assert_eq!(protected, vec![0]);
    assert_eq!(
        text(&destroy_plan_display(&order, &destroy, &protected)),
        "Destroy Plan:\n\n  - vpc.main\n  ⚠ s3.bucket.state (protected - will be skipped)\n\nPlan: 1 to destroy, 1 protected.\n\n"
    );
    assert_eq!(
        text(&destroy_plan_display(&order, &destroy, &vec![])),
        "Destroy Plan:\n\n  - vpc.main\n\nPlan: 1 to destroy.\n\n"
    );
    assert_eq!(destroy_summary(3, 0), "Destroy complete! 3 resources destroyed.");
    assert_eq!(destroy_summary(1, 2), "Destroy failed. 1 succeeded, 2 failed.");
}

#[test]
fn regions_are_converted_to_aws_form() {
    assert_eq!(convert_region_value("aws.Region.ap_northeast_1"), "ap-northeast-1");
    assert_eq!(convert_region_value("us-west-2"), "us-west-2");
    let parsed = parse(
        "provider aws {\n  region = aws.Region.eu_west_1\n}\nprovider awscc {\n  region = \"us-east-2\"\n}\n",
        &Environment::new(),
    )
    .unwrap();
    assert_eq!(get_aws_region(&parsed), "eu-west-1");
    assert_eq!(get_awscc_region(&parsed), "us-east-2");
    let empty = parse("", &Environment::new()).unwrap();
    assert_eq!(get_aws_region(&empty), "ap-northeast-1");
}

#[test]
fn default_region_fills_resources_without_one() {
    let mut parsed = parse(
        "provider aws {\n  region = aws.Region.eu_west_1\n}\nlet a = aws.vpc {\n  name = \"a\"\n}\nlet b = aws.vpc {\n  name = \"b\"\n  region = \"us-east-1\"\n}\n",
        &Environment::new(),
    )
    .unwrap();
    apply_default_region(&mut parsed);
    assert_eq!(
        parsed.resources[0].attributes.get("region"),
        Some(&Value::String("aws.Region.eu_west_1".to_string()))
    );
    assert_eq!(
        parsed.resources[1].attributes.get("region"),
        Some(&Value::String("us-east-1".to_string()))
    );
}

#[test]
fn backend_settings() {
    let mut attrs = ValueMap::new();
    attrs.insert("bucket".to_string(), Value::String("state".to_string()));
    attrs.insert("region".to_string(), Value::String("aws.Region.us_west_2".to_string()));
    let config = BackendConfig { backend_type: "s3".to_string(), attributes: attrs };
    assert_eq!(backend_bucket(&config), Some("state".to_string()));
    assert!(backend_auto_create(&config));
    assert_eq!(backend_region(&config), "us-west-2");
    let mut attrs = ValueMap::new();
    attrs.insert("auto_create".to_string(), Value::Bool(false));
    let config = BackendConfig { backend_type: "s3".to_string(), attributes: attrs };
    assert!(!backend_auto_create(&config));
    assert_eq!(backend_bucket(&config), None);
    assert_eq!(backend_region(&config), "ap-northeast-1");
    assert_eq!(
        state_bucket_definition("b1"),
        "\n# Auto-generated by carina (state bucket)\naws.s3.bucket {\n    name       = \"b1\"\n    versioning = \"Enabled\"\n}\n"
    );
}

#[test]
fn state_bucket_resource_is_found_by_name() {
    let parsed = parse(
        "aws.s3.bucket {\n  name = \"other\"\n}\naws.s3.bucket {\n  name = \"state\"\n}\n",
        &Environment::new(),
    )
    .unwrap();
    assert_eq!(find_state_bucket_resource(&parsed, "state"), Some(1));
    assert_eq!(find_state_bucket_resource(&parsed, "missing"), None);
}

#[test]
fn provider_region_must_be_valid() {
    let ok = parse("provider aws {\n  region = aws.Region.ap_northeast_1\n}\n", &Environment::new()).unwrap();
    assert!(validate_provider_region(&ok).is_ok());
    let bad = parse("provider aws {\n  region = \"mars-1\"\n}\n", &Environment::new()).unwrap();
    let err = validate_provider_region(&bad).unwrap_err();
    assert!(err.starts_with("provider aws: "));
}

#[test]
fn module_arguments_are_checked_against_input_types() {
    assert_eq!(validate_module_arg_type(&TypeExpr::Cidr, &Value::String("10.0.0.0/16".to_string())), None);
    assert!(validate_module_arg_type(&TypeExpr::Cidr, &Value::String("10.0.0.0".to_string())).is_some());
    assert_eq!(
        validate_module_arg_type(
            &TypeExpr::List(Box::new(TypeExpr::Cidr)),
            &Value::List(vec![Value::String("10.0.0.0/16".to_string()), Value::Int(1)])
        ),
        Some("element 1: expected string".to_string())
    );
    assert_eq!(
        validate_module_arg_type(&TypeExpr::Bool, &Value::String("yes".to_string())),
        Some("expected bool, got string \"yes\". Use true or false.".to_string())
    );
    assert_eq!(
        validate_module_arg_type(&TypeExpr::Int, &Value::String("1".to_string())),
        Some("expected int, got string \"1\".".to_string())
    );
    assert_eq!(validate_module_arg_type(&TypeExpr::Int, &Value::Int(1)), None);
}

#[test]
fn resources_are_validated_against_schemas() {
    let schemas = get_schemas();
    let unknown = vec![Resource::new("nothing", "x")];
    assert_eq!(
        validate_resources(&unknown, &schemas),
        Err("Unknown resource type: nothing".to_string())
    );
    let other_provider = vec![Resource::new("vpc", "x").with_attribute("_provider", Value::String("awscc".to_string()))];
    assert_eq!(
        validate_resources(&other_provider, &schemas),
        Err("Unknown resource type: awscc.vpc".to_string())
    );
    assert_eq!(validate_resources(&vec![], &schemas), Ok(()));
}

#[test]
fn parsed_files_merge() {
    let mut a = parse("let x = aws.vpc {\n  name = \"x\"\n}\n", &Environment::new()).unwrap();
    let b = parse("let y = aws.vpc {\n  name = \"y\"\n}\n", &Environment::new()).unwrap();
    let conflict = merge_parsed(&mut a, b, true);
    assert!(!conflict);
    assert_eq!(a.resources.len(), 2);
}

#[test]
fn module_names_come_from_paths() {
    assert_eq!(module_name_from_path(true, Some("web_tier"), None, None), "web_tier");
    assert_eq!(module_name_from_path(false, Some("main.crn"), Some("main"), Some("web_tier")), "web_tier");
    assert_eq!(module_name_from_path(false, Some("web.crn"), Some("web"), Some("modules")), "web");
    assert_eq!(module_name_from_path(false, None, None, None), "unknown");
}
